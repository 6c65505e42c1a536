//! The tokens of the expression language.

use vstd::prelude::*;

verus! {

/// An operator of the expression language.
#[derive(Debug, Clone, Copy, PartialEq)]
pub enum Operator {
    Add,
    Sub,
    Mul,
    Div,
    Pow,
    Compose,
    PointMul,
    PointDiv,
    DefineEqual,
}

/// A token of the expression language.
#[derive(Debug, Clone, PartialEq)]
pub enum Token {
    Operator(Operator),
    Identifier(Vec<u8>),
    Literal(Vec<u8>),
    Comma,
    Semicolon,
    OpenParen,
    CloseParen,
    OpenBracket,
    CloseBracket,
    Let,
    LetRec,
}

/// A token as a mathematical value.
pub enum TokenView {
    Operator(Operator),
    Identifier(Seq<u8>),
    Literal(Seq<u8>),
    Comma,
    Semicolon,
    OpenParen,
    CloseParen,
    OpenBracket,
    CloseBracket,
    Let,
    LetRec,
}

impl View for Token {
    type V = TokenView;

    open spec fn view(&self) -> TokenView {
        match self {
            Token::Operator(o) => TokenView::Operator(*o),
            Token::Identifier(v) => TokenView::Identifier(v@),
            Token::Literal(v) => TokenView::Literal(v@),
            Token::Comma => TokenView::Comma,
            Token::Semicolon => TokenView::Semicolon,
            Token::OpenParen => TokenView::OpenParen,
            Token::CloseParen => TokenView::CloseParen,
            Token::OpenBracket => TokenView::OpenBracket,
            Token::CloseBracket => TokenView::CloseBracket,
            Token::Let => TokenView::Let,
            Token::LetRec => TokenView::LetRec,
        }
    }
}

/// The position of a byte at which no token begins.
#[derive(Debug, Clone, Copy, PartialEq, Eq)]
pub struct LexError {
    pub position: usize,
}

/// The views of a sequence of tokens.
pub open spec fn token_views(ts: Seq<Token>) -> Seq<TokenView> {
    Seq::new(ts.len(), |i: int| ts[i]@)
}

/// `b` is a blank between tokens: white space other than a line break.
pub open spec fn is_blank(b: u8) -> bool {
    b == 32 || b == 9 || b == 12 || b == 13
}

/// `b` is a decimal digit.
pub open spec fn is_digit(b: u8) -> bool {
    48 <= b <= 57
}

/// `b` can begin an identifier: a letter or an underscore.
pub open spec fn is_letter(b: u8) -> bool {
    (97 <= b <= 122) || (65 <= b <= 90) || b == 95
}

/// The end of the run of digits that begins at `pos`.
pub open spec fn digits_end(text: Seq<u8>, pos: int) -> int
    decreases text.len() - pos,
{
    if pos < text.len() && is_digit(text[pos]) {
        digits_end(text, pos + 1)
    } else {
        pos
    }
}

/// The end of the run of letters, digits and underscores that begins at `pos`.
pub open spec fn name_end(text: Seq<u8>, pos: int) -> int
    decreases text.len() - pos,
{
    if pos < text.len() && (is_letter(text[pos]) || is_digit(text[pos])) {
        name_end(text, pos + 1)
    } else {
        pos
    }
}

/// The bytes of `word` stand in `text` at `pos`.
pub open spec fn stands_at(text: Seq<u8>, pos: int, word: Seq<u8>) -> bool {
    pos + word.len() <= text.len() && text.subrange(pos, pos + word.len()) == word
}

/// The operator that stands at `pos`, with the position behind it.
pub open spec fn operator_at(text: Seq<u8>, pos: int) -> Option<(Operator, int)> {
    let b = text[pos];
    if b == 43 {
        Some((Operator::Add, pos + 1))
    } else if b == 45 {
        Some((Operator::Sub, pos + 1))
    } else if b == 42 {
        Some((Operator::Mul, pos + 1))
    } else if b == 47 {
        Some((Operator::Div, pos + 1))
    } else if b == 94 {
        Some((Operator::Pow, pos + 1))
    } else if b == 64 {
        Some((Operator::Compose, pos + 1))
    } else if stands_at(text, pos, seq![46u8, 42u8]) {
        Some((Operator::PointMul, pos + 2))
    } else if stands_at(text, pos, seq![46u8, 47u8]) {
        Some((Operator::PointDiv, pos + 2))
    } else if stands_at(text, pos, seq![58u8, 61u8]) {
        Some((Operator::DefineEqual, pos + 2))
    } else {
        None
    }
}

/// The token that begins at `pos`, with the position behind it.
///
/// The word `let` is a keyword wherever it stands at the beginning of a
/// name, so that the rest of the name is a token of its own.
pub open spec fn token_at(text: Seq<u8>, pos: int) -> Option<(TokenView, int)> {
    let b = text[pos];
    if b == 44 {
        Some((TokenView::Comma, pos + 1))
    } else if b == 59 || b == 10 {
        Some((TokenView::Semicolon, pos + 1))
    } else if b == 40 {
        Some((TokenView::OpenParen, pos + 1))
    } else if b == 41 {
        Some((TokenView::CloseParen, pos + 1))
    } else if b == 91 {
        Some((TokenView::OpenBracket, pos + 1))
    } else if b == 93 {
        Some((TokenView::CloseBracket, pos + 1))
    } else if is_digit(b) {
        let end = digits_end(text, pos + 1);
        Some((TokenView::Literal(text.subrange(pos, end)), end))
    } else if is_letter(b) {
        if stands_at(text, pos, seq![108u8, 101u8, 116u8]) {
            Some((TokenView::Let, pos + 3))
        } else {
            let end = name_end(text, pos + 1);
            Some((TokenView::Identifier(text.subrange(pos, end)), end))
        }
    } else {
        match operator_at(text, pos) {
            Some((op, next)) => Some((TokenView::Operator(op), next)),
            None => None,
        }
    }
}

/// The tokens of `text` from `pos` on, or the position of the first byte at
/// which no token begins.
pub open spec fn tokens_from(text: Seq<u8>, pos: int) -> Result<Seq<TokenView>, int>
    decreases text.len() - pos,
{
    if pos < 0 || pos >= text.len() {
        Ok(Seq::empty())
    } else if is_blank(text[pos]) {
        tokens_from(text, pos + 1)
    } else {
        match token_at(text, pos) {
            None => Err(pos),
            Some((tok, next)) => if pos < next <= text.len() {
                match tokens_from(text, next) {
                    Ok(rest) => Ok(seq![tok].add(rest)),
                    Err(e) => Err(e),
                }
            } else {
                Err(pos)
            },
        }
    }
}

proof fn lemma_run_ends(text: Seq<u8>, pos: int)
    requires
        0 <= pos <= text.len(),
    ensures
        pos <= digits_end(text, pos) <= text.len(),
        pos <= name_end(text, pos) <= text.len(),
    decreases text.len() - pos,
{
    if pos < text.len() {
        lemma_run_ends(text, pos + 1);
    }
}

/// Whether the bytes of `word` stand in `text` at `pos`.
pub fn match_word(text: &[u8], pos: usize, word: &[u8]) -> (b: bool)
    requires
        pos <= text@.len(),
    ensures
        b == stands_at(text@, pos as int, word@),
{
    if word.len() > text.len() - pos {
        return false;
    }
    let mut i: usize = 0;
    while i < word.len()
        invariant
            i <= word@.len(),
            pos + word@.len() <= text@.len(),
            text@.len() <= usize::MAX,
            forall|j: int| 0 <= j < i ==> text@[pos + j] == word@[j],
        decreases word@.len() - i,
    {
        if text[pos + i] != word[i] {
            assert(text@.subrange(pos as int, pos + word@.len())[i as int] != word@[i as int]);
            return false;
        }
        i += 1;
    }
    assert(text@.subrange(pos as int, pos + word@.len()) =~= word@);
    true
}

/// The bytes of `text` from `from` up to `to`.
pub fn copy_bytes(text: &[u8], from: usize, to: usize) -> (v: Vec<u8>)
    requires
        from <= to <= text@.len(),
    ensures
        v@ == text@.subrange(from as int, to as int),
{
    let mut v: Vec<u8> = Vec::new();
    let mut i: usize = from;
    while i < to
        invariant
            from <= i <= to,
            to <= text@.len(),
            v@ == text@.subrange(from as int, i as int),
        decreases to - i,
    {
        v.push(text[i]);
        assert(v@ =~= text@.subrange(from as int, i + 1));
        i += 1;
    }
    v
}

/// The operator that stands at `pos`, with the position behind it.
pub fn match_operator(text: &[u8], pos: usize) -> (r: Option<(Operator, usize)>)
    requires
        pos < text@.len(),
    ensures
        match operator_at(text@, pos as int) {
            Some((op, next)) => r == Some((op, next as usize)) && pos < next <= text@.len(),
            None => r is None,
        },
{
    let b = text[pos];
    if b == 43 {
        Some((Operator::Add, pos + 1))
    } else if b == 45 {
        Some((Operator::Sub, pos + 1))
    } else if b == 42 {
        Some((Operator::Mul, pos + 1))
    } else if b == 47 {
        Some((Operator::Div, pos + 1))
    } else if b == 94 {
        Some((Operator::Pow, pos + 1))
    } else if b == 64 {
        Some((Operator::Compose, pos + 1))
    } else {
        let point_mul: [u8; 2] = [46, 42];
        let point_div: [u8; 2] = [46, 47];
        let define: [u8; 2] = [58, 61];
        assert(point_mul@ =~= seq![46u8, 42u8]);
        assert(point_div@ =~= seq![46u8, 47u8]);
        assert(define@ =~= seq![58u8, 61u8]);
        if match_word(text, pos, point_mul.as_slice()) {
            Some((Operator::PointMul, pos + 2))
        } else if match_word(text, pos, point_div.as_slice()) {
            Some((Operator::PointDiv, pos + 2))
        } else if match_word(text, pos, define.as_slice()) {
            Some((Operator::DefineEqual, pos + 2))
        } else {
            None
        }
    }
}

/// The tokens of `text`.
///
/// Fails at the first byte at which no token begins.
pub fn parse_tokens(text: &[u8]) -> (r: Result<Vec<Token>, LexError>)
    ensures
        match tokens_from(text@, 0) {
            Ok(ts) => r is Ok && token_views(r->Ok_0@) == ts,
            Err(pos) => r == Err::<Vec<Token>, LexError>(LexError { position: pos as usize }),
        },
{
    let ghost goal = tokens_from(text@, 0);
    let mut res: Vec<Token> = Vec::new();
    let mut pos: usize = 0;
    proof {
        match goal {
            Ok(rest) => {
                assert(token_views(res@).add(rest) =~= rest);
            },
            Err(e) => {},
        }
    }
    while pos < text.len()
        invariant
            pos <= text@.len(),
            goal == tokens_from(text@, 0),
            goal == (match tokens_from(text@, pos as int) {
                Ok(rest) => Ok::<Seq<TokenView>, int>(token_views(res@).add(rest)),
                Err(e) => Err::<Seq<TokenView>, int>(e),
            }),
        decreases text@.len() - pos,
    {
        let b = text[pos];
        if b == 32 || b == 9 || b == 12 || b == 13 {
            pos += 1;
            continue ;
        }
        let ghost before = token_views(res@);
        let ghost start = pos;
        proof {
            lemma_run_ends(text@, pos + 1);
        }
        let tok = if b == 44 {
            pos += 1;
            Token::Comma
        } else if b == 59 || b == 10 {
            pos += 1;
            Token::Semicolon
        } else if b == 40 {
            pos += 1;
            Token::OpenParen
        } else if b == 41 {
            pos += 1;
            Token::CloseParen
        } else if b == 91 {
            pos += 1;
            Token::OpenBracket
        } else if b == 93 {
            pos += 1;
            Token::CloseBracket
        } else if 48 <= b && b <= 57 {
            let mut end: usize = pos + 1;
            while end < text.len() && 48 <= text[end] && text[end] <= 57
                invariant
                    pos < end <= text@.len(),
                    digits_end(text@, end as int) == digits_end(text@, pos + 1),
                decreases text@.len() - end,
            {
                end += 1;
            }
            let num = copy_bytes(text, pos, end);
            pos = end;
            Token::Literal(num)
        } else if (97 <= b && b <= 122) || (65 <= b && b <= 90) || b == 95 {
            let word: [u8; 3] = [108, 101, 116];
            assert(word@ =~= seq![108u8, 101u8, 116u8]);
            if match_word(text, pos, word.as_slice()) {
                pos += 3;
                Token::Let
            } else {
                let mut end: usize = pos + 1;
                while end < text.len() && ((97 <= text[end] && text[end] <= 122) || (65 <= text[end]
                    && text[end] <= 90) || text[end] == 95 || (48 <= text[end] && text[end] <= 57))
                    invariant
                        pos < end <= text@.len(),
                        name_end(text@, end as int) == name_end(text@, pos + 1),
                    decreases text@.len() - end,
                {
                    end += 1;
                }
                let name = copy_bytes(text, pos, end);
                pos = end;
                Token::Identifier(name)
            }
        } else {
            match match_operator(text, pos) {
                Some((op, next)) => {
                    pos = next;
                    Token::Operator(op)
                },
                None => {
                    return Err(LexError { position: pos });
                },
            }
        };
        proof {
            assert(token_at(text@, start as int) == Some((tok@, pos as int)));
        }
        res.push(tok);
        proof {
            assert(token_views(res@) =~= before.add(seq![tok@]));
            match tokens_from(text@, pos as int) {
                Ok(rest) => {
                    assert(before.add(seq![tok@].add(rest)) =~= token_views(res@).add(rest));
                },
                Err(e) => {},
            }
        }
    }
    proof {
        assert(token_views(res@).add(Seq::<TokenView>::empty()) =~= token_views(res@));
    }
    Ok(res)
}

} // verus!
