//! The syntax trees of the expression language, and the parser that makes
//! them of tokens.
//!
//! A command is `let name := summand`, `letrec summand := summand`, or a
//! summand. A summand is a chain of factors joined by `+` and `-`, a factor a
//! chain of operands joined by `*`, `/`, `.*` and `./`, an operand a chain of
//! expressions joined by `^` and `@`, or the negative of an operand. Chains
//! associate to the right, and are split only outside of parentheses and
//! brackets. An expression is a name, an application of a name, a summand in
//! parentheses, a list of constants in brackets, or a constant; constants
//! are built of literals by the same chains.

use crate::lexer::{token_views, Operator, Token, TokenView};
use vstd::prelude::*;
use vstd::std_specs::cmp::PartialEqSpecImpl;

verus! {

/// A syntax tree.
#[derive(Debug)]
pub enum SyntaxNode {
    Constant(Vec<u8>),
    Identifier(Vec<u8>),
    Series(Vec<SyntaxNode>),
    Paren(Box<SyntaxNode>),
    LetStatement(Vec<u8>, Box<SyntaxNode>),
    RecStatement(Box<SyntaxNode>, Box<SyntaxNode>),
    Application(Vec<u8>, Vec<SyntaxNode>),
    BinaryOp(Box<SyntaxNode>, Operator, Box<SyntaxNode>),
    UnaryOp(Operator, Box<SyntaxNode>),
}

/// A syntax tree as a mathematical value.
pub enum Tree {
    Constant(Seq<u8>),
    Identifier(Seq<u8>),
    Series(Seq<Tree>),
    Paren(Box<Tree>),
    LetStatement(Seq<u8>, Box<Tree>),
    RecStatement(Box<Tree>, Box<Tree>),
    Application(Seq<u8>, Seq<Tree>),
    BinaryOp(Box<Tree>, Operator, Box<Tree>),
    UnaryOp(Operator, Box<Tree>),
}

/// Why a sequence of tokens is no command.
#[derive(Debug, Clone, Copy, PartialEq, Eq)]
pub enum ParseError {
    /// A token is expected where there is none.
    Empty,
    /// A constant is expected to be a single literal.
    NotSingleLiteral,
    /// A literal is expected.
    NotLiteral,
    /// An opening parenthesis is the last token.
    NoClosingParen,
    /// An opening bracket is the last token.
    NoClosingBracket,
    /// `let` is not followed by a name, `:=` and an expression.
    LetTooShort,
    /// `let` is not followed by a name.
    LetNoName,
    /// The name after `let` is not followed by `:=`.
    LetNoDefine,
    /// `letrec` is not followed by `:=` anywhere.
    LetRecNoDefine,
}

/// The tree that a syntax node stands for.
pub open spec fn tree_of(n: SyntaxNode) -> Tree
    decreases n,
{
    match n {
        SyntaxNode::Constant(x) => Tree::Constant(x@),
        SyntaxNode::Identifier(x) => Tree::Identifier(x@),
        SyntaxNode::Series(v) => Tree::Series(
            Seq::new(
                v@.len(),
                |i: int|
                    if 0 <= i < v@.len() {
                        tree_of(v@[i])
                    } else {
                        Tree::Series(Seq::empty())
                    },
            ),
        ),
        SyntaxNode::Paren(b) => Tree::Paren(Box::new(tree_of(*b))),
        SyntaxNode::LetStatement(x, b) => Tree::LetStatement(x@, Box::new(tree_of(*b))),
        SyntaxNode::RecStatement(a, b) => Tree::RecStatement(Box::new(tree_of(*a)), Box::new(tree_of(*b))),
        SyntaxNode::Application(x, v) => Tree::Application(
            x@,
            Seq::new(
                v@.len(),
                |i: int|
                    if 0 <= i < v@.len() {
                        tree_of(v@[i])
                    } else {
                        Tree::Series(Seq::empty())
                    },
            ),
        ),
        SyntaxNode::BinaryOp(a, o, b) => Tree::BinaryOp(Box::new(tree_of(*a)), o, Box::new(tree_of(*b))),
        SyntaxNode::UnaryOp(o, b) => Tree::UnaryOp(o, Box::new(tree_of(*b))),
    }
}

/// The trees that a sequence of syntax nodes stands for.
pub open spec fn trees_of(v: Seq<SyntaxNode>) -> Seq<Tree> {
    Seq::new(v.len(), |i: int| tree_of(v[i]))
}

/// The levels of the grammar, from the loosest binding to the tightest.
#[derive(Debug, Clone, Copy, PartialEq, Eq)]
pub enum Level {
    Summand,
    Factor,
    Operand,
    Expression,
    ConstantSummand,
    ConstantFactor,
    ConstantOperand,
    ConstantLiteral,
}

/// The place of a level in the order of the levels.
pub open spec fn rank(l: Level) -> nat {
    match l {
        Level::Summand => 7,
        Level::Factor => 6,
        Level::Operand => 5,
        Level::Expression => 4,
        Level::ConstantSummand => 3,
        Level::ConstantFactor => 2,
        Level::ConstantOperand => 1,
        Level::ConstantLiteral => 0,
    }
}

/// The level of the links of a chain of level `l`.
pub open spec fn below(l: Level) -> Level {
    match l {
        Level::Summand => Level::Factor,
        Level::Factor => Level::Operand,
        Level::Operand => Level::Expression,
        Level::Expression => Level::ConstantSummand,
        Level::ConstantSummand => Level::ConstantFactor,
        Level::ConstantFactor => Level::ConstantOperand,
        Level::ConstantOperand => Level::ConstantLiteral,
        Level::ConstantLiteral => Level::ConstantLiteral,
    }
}

/// The operator `o` joins the links of a chain of level `l`.
pub open spec fn joins(o: Operator, l: Level) -> bool {
    match l {
        Level::Summand => o is Add || o is Sub,
        Level::Factor => o is Mul || o is Div || o is PointMul || o is PointDiv,
        Level::Operand => o is Pow || o is Compose,
        Level::ConstantSummand => o is Add || o is Sub,
        Level::ConstantFactor => o is Mul || o is Div,
        Level::ConstantOperand => o is Pow,
        _ => false,
    }
}

/// The token opens a pair of parentheses or brackets.
pub open spec fn opens(t: TokenView) -> bool {
    t is OpenParen || t is OpenBracket
}

/// The token closes a pair of parentheses or brackets.
pub open spec fn closes(t: TokenView) -> bool {
    t is CloseParen || t is CloseBracket
}

/// The nesting depth behind the token `t`, where it is `depth` before it.
pub open spec fn depth_after(t: TokenView, depth: int) -> int {
    depth + (if opens(t) { 1int } else { 0int }) - (if closes(t) { 1int } else { 0int })
}

/// The token is an operator that joins the links of a chain of level `l`.
pub open spec fn splits(t: TokenView, l: Level) -> bool {
    t is Operator && joins(t->Operator_0, l)
}

/// The position of the first operator of level `l` from `i` on that stands
/// outside of all parentheses and brackets, where the nesting depth at `i`
/// is `depth`.
pub open spec fn first_split(tok: Seq<TokenView>, i: int, depth: int, l: Level) -> Option<int>
    decreases tok.len() - i,
{
    if i < 0 || i >= tok.len() {
        None
    } else if depth == 0 && splits(tok[i], l) {
        Some(i)
    } else {
        first_split(tok, i + 1, depth_after(tok[i], depth), l)
    }
}

/// The end of the list item that begins at `j`: the position of the next
/// comma that stands at a nesting depth of zero or less, or the end of `tok`.
pub open spec fn item_end(tok: Seq<TokenView>, j: int, depth: int) -> int
    decreases tok.len() - j,
{
    if j < 0 || j >= tok.len() || (tok[j] is Comma && depth <= 0) {
        j
    } else {
        item_end(tok, j + 1, depth_after(tok[j], depth))
    }
}

/// The nesting depth at the end of the list item that begins at `j`.
pub open spec fn item_depth(tok: Seq<TokenView>, j: int, depth: int) -> int
    decreases tok.len() - j,
{
    if j < 0 || j >= tok.len() || (tok[j] is Comma && depth <= 0) {
        depth
    } else {
        item_depth(tok, j + 1, depth_after(tok[j], depth))
    }
}

/// What `tok` is at the level `l` of the grammar.
pub open spec fn parse_at(tok: Seq<TokenView>, l: Level) -> Result<Tree, ParseError>
    decreases tok.len(), 2 * rank(l) + 1, 0nat,
{
    let n = tok.len() as int;
    match l {
        Level::ConstantLiteral => {
            if n != 1 {
                Err(ParseError::NotSingleLiteral)
            } else {
                match tok[0] {
                    TokenView::Literal(x) => Ok(Tree::Constant(x)),
                    _ => Err(ParseError::NotLiteral),
                }
            }
        },
        Level::Expression => {
            if n == 0 {
                Err(ParseError::Empty)
            } else {
                match tok[0] {
                    TokenView::Identifier(x) => {
                        if n == 1 {
                            Ok(Tree::Identifier(x))
                        } else if tok[1] is OpenParen {
                            if n < 3 {
                                Err(ParseError::NoClosingParen)
                            } else {
                                match list_from(tok.subrange(2, n - 1), 0, 0, Level::Summand) {
                                    Ok(args) => Ok(Tree::Application(x, args)),
                                    Err(e) => Err(e),
                                }
                            }
                        } else {
                            match parse_at(tok.subrange(1, n), Level::Expression) {
                                Ok(arg) => Ok(Tree::Application(x, seq![arg])),
                                Err(e) => Err(e),
                            }
                        }
                    },
                    TokenView::OpenParen => {
                        if n < 2 {
                            Err(ParseError::NoClosingParen)
                        } else {
                            parse_at(tok.subrange(1, n - 1), Level::Summand)
                        }
                    },
                    TokenView::OpenBracket => {
                        if n < 2 {
                            Err(ParseError::NoClosingBracket)
                        } else {
                            match list_from(tok.subrange(1, n - 1), 0, 0, Level::ConstantSummand) {
                                Ok(items) => Ok(Tree::Series(items)),
                                Err(e) => Err(e),
                            }
                        }
                    },
                    _ => parse_at(tok, Level::ConstantSummand),
                }
            }
        },
        Level::Operand | Level::ConstantOperand => {
            if n == 0 {
                Err(ParseError::Empty)
            } else if tok[0] == TokenView::Operator(Operator::Sub) {
                match parse_at(tok.subrange(1, n), l) {
                    Ok(t) => Ok(Tree::UnaryOp(Operator::Sub, Box::new(t))),
                    Err(e) => Err(e),
                }
            } else {
                chain_at(tok, l)
            }
        },
        _ => chain_at(tok, l),
    }
}

/// What `tok` is as a chain of level `l`: its links, of the level below,
/// joined from the right.
pub open spec fn chain_at(tok: Seq<TokenView>, l: Level) -> Result<Tree, ParseError>
    decreases tok.len(), 2 * rank(l), 0nat,
{
    if l is Expression || l is ConstantLiteral {
        Err(ParseError::Empty)
    } else {
        match first_split(tok, 0, 0, l) {
            None => parse_at(tok, below(l)),
            Some(pos) => {
                if 0 <= pos < tok.len() && tok[pos] is Operator {
                    match chain_at(tok.subrange(pos + 1, tok.len() as int), l) {
                        Err(e) => Err(e),
                        Ok(right) => match parse_at(tok.subrange(0, pos), below(l)) {
                            Err(e) => Err(e),
                            Ok(left) => Ok(
                                Tree::BinaryOp(Box::new(left), tok[pos]->Operator_0, Box::new(right)),
                            ),
                        },
                    }
                } else {
                    Err(ParseError::Empty)
                }
            },
        }
    }
}

/// The items of the list `tok` from position `i` on, each at the level `l`,
/// where the nesting depth at `i` is `depth`.
pub open spec fn list_from(tok: Seq<TokenView>, i: int, depth: int, l: Level) -> Result<
    Seq<Tree>,
    ParseError,
>
    decreases tok.len(), 100nat, tok.len() - i,
{
    if i < 0 || i >= tok.len() {
        Ok(Seq::empty())
    } else {
        let j = item_end(tok, i, depth);
        if i <= j <= tok.len() {
            match parse_at(tok.subrange(i, j), l) {
                Err(e) => Err(e),
                Ok(t) => with_front(
                    seq![t],
                    if j < tok.len() {
                        list_from(tok, j + 1, item_depth(tok, i, depth), l)
                    } else {
                        Ok(Seq::empty())
                    },
                ),
            }
        } else {
            Err(ParseError::Empty)
        }
    }
}

/// The position of the first `:=` from `i` on, or the length of `tok`.
pub open spec fn first_define(tok: Seq<TokenView>, i: int) -> int
    decreases tok.len() - i,
{
    if i < 0 || i >= tok.len() || tok[i] == TokenView::Operator(Operator::DefineEqual) {
        i
    } else {
        first_define(tok, i + 1)
    }
}

/// What `tok` is as a command.
pub open spec fn command_of(tok: Seq<TokenView>) -> Result<Tree, ParseError> {
    let n = tok.len() as int;
    if n == 0 {
        Err(ParseError::Empty)
    } else if tok[0] is Let {
        if n <= 3 {
            Err(ParseError::LetTooShort)
        } else if !(tok[1] is Identifier) {
            Err(ParseError::LetNoName)
        } else if tok[2] != TokenView::Operator(Operator::DefineEqual) {
            Err(ParseError::LetNoDefine)
        } else {
            match parse_at(tok.subrange(3, n), Level::Summand) {
                Ok(t) => Ok(Tree::LetStatement(tok[1]->Identifier_0, Box::new(t))),
                Err(e) => Err(e),
            }
        }
    } else if tok[0] is LetRec {
        let d = first_define(tok, 1);
        if d >= n {
            Err(ParseError::LetRecNoDefine)
        } else {
            match parse_at(tok.subrange(1, d), Level::Summand) {
                Err(e) => Err(e),
                Ok(left) => match parse_at(tok.subrange(d + 1, n), Level::Summand) {
                    Err(e) => Err(e),
                    Ok(right) => Ok(Tree::RecStatement(Box::new(left), Box::new(right))),
                },
            }
        }
    } else {
        parse_at(tok, Level::Summand)
    }
}

/// The position of the first semicolon from `j` on, or the length of `tok`.
pub open spec fn command_end(tok: Seq<TokenView>, j: int) -> int
    decreases tok.len() - j,
{
    if j < 0 || j >= tok.len() || tok[j] is Semicolon {
        j
    } else {
        command_end(tok, j + 1)
    }
}

/// The commands of `tok` from position `i` on: each ends at a semicolon or
/// at the end of `tok`.
pub open spec fn commands_from(tok: Seq<TokenView>, i: int) -> Result<Seq<Tree>, ParseError>
    decreases tok.len() - i,
{
    if i < 0 || i >= tok.len() {
        Ok(Seq::empty())
    } else {
        let j = command_end(tok, i);
        if i < j <= tok.len() {
            match command_of(tok.subrange(i, j)) {
                Err(e) => Err(e),
                Ok(t) => with_front(
                    seq![t],
                    if j < tok.len() {
                        commands_from(tok, j + 1)
                    } else {
                        Ok(Seq::empty())
                    },
                ),
            }
        } else {
            Err(ParseError::Empty)
        }
    }
}

/// The trees of a result.
pub open spec fn node_result(r: Result<SyntaxNode, ParseError>) -> Result<Tree, ParseError> {
    match r {
        Ok(n) => Ok(tree_of(n)),
        Err(e) => Err(e),
    }
}

/// The trees of a result that holds a list.
pub open spec fn nodes_result(r: Result<Vec<SyntaxNode>, ParseError>) -> Result<Seq<Tree>, ParseError> {
    match r {
        Ok(v) => Ok(trees_of(v@)),
        Err(e) => Err(e),
    }
}

/// The trees `done`, followed by those of `rest`.
pub open spec fn with_front(done: Seq<Tree>, rest: Result<Seq<Tree>, ParseError>) -> Result<
    Seq<Tree>,
    ParseError,
> {
    match rest {
        Ok(r) => Ok(done + r),
        Err(e) => Err(e),
    }
}

/// Whether the two lists of bytes are the same.
fn same_bytes(a: &Vec<u8>, b: &Vec<u8>) -> (r: bool)
    ensures
        r <==> a@ == b@,
{
    if a.len() != b.len() {
        return false;
    }
    let mut i: usize = 0;
    while i < a.len()
        invariant
            i <= a@.len(),
            a@.len() == b@.len(),
            forall|k: int| 0 <= k < i ==> a@[k] == b@[k],
        decreases a@.len() - i,
    {
        if a[i] != b[i] {
            return false;
        }
        i += 1;
    }
    proof {
        assert(a@ =~= b@);
    }
    true
}

/// Whether the two operators are the same.
fn same_operator(a: Operator, b: Operator) -> (r: bool)
    ensures
        r <==> a == b,
{
    match (a, b) {
        (Operator::Add, Operator::Add) => true,
        (Operator::Sub, Operator::Sub) => true,
        (Operator::Mul, Operator::Mul) => true,
        (Operator::Div, Operator::Div) => true,
        (Operator::Pow, Operator::Pow) => true,
        (Operator::Compose, Operator::Compose) => true,
        (Operator::PointMul, Operator::PointMul) => true,
        (Operator::PointDiv, Operator::PointDiv) => true,
        (Operator::DefineEqual, Operator::DefineEqual) => true,
        _ => false,
    }
}

/// Whether the two lists of syntax nodes stand for the same trees.
fn same_nodes(a: &Vec<SyntaxNode>, b: &Vec<SyntaxNode>) -> (r: bool)
    ensures
        r <==> trees_of(a@) == trees_of(b@),
    decreases a,
{
    if a.len() != b.len() {
        proof {
            assert(trees_of(a@).len() != trees_of(b@).len());
        }
        return false;
    }
    let mut i: usize = 0;
    while i < a.len()
        invariant
            i <= a@.len(),
            a@.len() == b@.len(),
            forall|k: int| 0 <= k < i ==> tree_of(a@[k]) == tree_of(b@[k]),
        decreases a@.len() - i,
    {
        if !same_node(&a[i], &b[i]) {
            proof {
                assert(trees_of(a@)[i as int] != trees_of(b@)[i as int]);
            }
            return false;
        }
        i += 1;
    }
    proof {
        assert(trees_of(a@) =~= trees_of(b@));
    }
    true
}

/// Whether the two syntax nodes stand for the same tree.
pub fn same_node(a: &SyntaxNode, b: &SyntaxNode) -> (r: bool)
    ensures
        r <==> tree_of(*a) == tree_of(*b),
    decreases a,
{
    match (a, b) {
        (SyntaxNode::Constant(x), SyntaxNode::Constant(y)) => same_bytes(x, y),
        (SyntaxNode::Identifier(x), SyntaxNode::Identifier(y)) => same_bytes(x, y),
        (SyntaxNode::Series(v), SyntaxNode::Series(w)) => {
            proof {
                assert(tree_of(*a)->Series_0 =~= trees_of(v@));
                assert(tree_of(*b)->Series_0 =~= trees_of(w@));
            }
            same_nodes(v, w)
        },
        (SyntaxNode::Paren(x), SyntaxNode::Paren(y)) => same_node(x, y),
        (SyntaxNode::LetStatement(x, s), SyntaxNode::LetStatement(y, t)) => same_bytes(x, y) && same_node(
            s,
            t,
        ),
        (SyntaxNode::RecStatement(x, s), SyntaxNode::RecStatement(y, t)) => same_node(x, y) && same_node(
            s,
            t,
        ),
        (SyntaxNode::Application(x, v), SyntaxNode::Application(y, w)) => {
            proof {
                assert(tree_of(*a)->Application_1 =~= trees_of(v@));
                assert(tree_of(*b)->Application_1 =~= trees_of(w@));
            }
            same_bytes(x, y) && same_nodes(v, w)
        },
        (SyntaxNode::BinaryOp(x, o, s), SyntaxNode::BinaryOp(y, q, t)) => same_node(x, y) && same_operator(
            *o,
            *q,
        ) && same_node(s, t),
        (SyntaxNode::UnaryOp(o, s), SyntaxNode::UnaryOp(q, t)) => same_operator(*o, *q) && same_node(s, t),
        _ => false,
    }
}

impl PartialEq for SyntaxNode {
    /// Syntax nodes are equal where they stand for the same tree.
    fn eq(&self, other: &Self) -> (b: bool) {
        same_node(self, other)
    }
}

impl PartialEqSpecImpl for SyntaxNode {
    open spec fn obeys_eq_spec() -> bool {
        true
    }

    open spec fn eq_spec(&self, other: &Self) -> bool {
        tree_of(*self) == tree_of(*other)
    }
}

/// The token opens a pair of parentheses or brackets.
fn token_opens(t: &Token) -> (b: bool)
    ensures
        b == opens(t@),
{
    match t {
        Token::OpenParen => true,
        Token::OpenBracket => true,
        _ => false,
    }
}

/// The token closes a pair of parentheses or brackets.
fn token_closes(t: &Token) -> (b: bool)
    ensures
        b == closes(t@),
{
    match t {
        Token::CloseParen => true,
        Token::CloseBracket => true,
        _ => false,
    }
}

/// The token is an operator that joins the links of a chain of level `l`.
fn token_splits(t: &Token, l: Level) -> (b: bool)
    ensures
        b == splits(t@, l),
{
    match t {
        Token::Operator(o) => match l {
            Level::Summand => matches!(o, Operator::Add | Operator::Sub),
            Level::Factor => matches!(o, Operator::Mul | Operator::Div | Operator::PointMul | Operator::PointDiv),
            Level::Operand => matches!(o, Operator::Pow | Operator::Compose),
            Level::ConstantSummand => matches!(o, Operator::Add | Operator::Sub),
            Level::ConstantFactor => matches!(o, Operator::Mul | Operator::Div),
            Level::ConstantOperand => matches!(o, Operator::Pow),
            _ => false,
        },
        _ => false,
    }
}

/// The token is the operator `-`.
fn token_is_minus(t: &Token) -> (b: bool)
    ensures
        b == (t@ == TokenView::Operator(Operator::Sub)),
{
    match t {
        Token::Operator(Operator::Sub) => true,
        _ => false,
    }
}

/// The token is a semicolon.
fn token_is_semicolon(t: &Token) -> (b: bool)
    ensures
        b == (t@ is Semicolon),
{
    match t {
        Token::Semicolon => true,
        _ => false,
    }
}

/// The token is the operator `:=`.
fn token_is_define(t: &Token) -> (b: bool)
    ensures
        b == (t@ == TokenView::Operator(Operator::DefineEqual)),
{
    match t {
        Token::Operator(Operator::DefineEqual) => true,
        _ => false,
    }
}

/// The level of the links of a chain of level `l`.
fn level_below(l: Level) -> (r: Level)
    ensures
        r == below(l),
{
    match l {
        Level::Summand => Level::Factor,
        Level::Factor => Level::Operand,
        Level::Operand => Level::Expression,
        Level::Expression => Level::ConstantSummand,
        Level::ConstantSummand => Level::ConstantFactor,
        Level::ConstantFactor => Level::ConstantOperand,
        Level::ConstantOperand => Level::ConstantLiteral,
        Level::ConstantLiteral => Level::ConstantLiteral,
    }
}

/// A copy of the bytes of a name or literal.
fn copy_name(x: &Vec<u8>) -> (v: Vec<u8>)
    ensures
        v@ == x@,
{
    let mut v: Vec<u8> = Vec::new();
    let mut i: usize = 0;
    while i < x.len()
        invariant
            i <= x@.len(),
            v@ == x@.subrange(0, i as int),
        decreases x@.len() - i,
    {
        v.push(x[i]);
        proof {
            assert(v@ =~= x@.subrange(0, i + 1));
        }
        i += 1;
    }
    proof {
        assert(v@ =~= x@);
    }
    v
}

/// The tokens from `lo` up to `hi`, as mathematical values.
pub open spec fn window(tok: Seq<Token>, lo: int, hi: int) -> Seq<TokenView> {
    token_views(tok).subrange(lo, hi)
}

/// The first operator of level `l` between `lo` and `hi` that stands
/// outside of all parentheses and brackets.
fn find_split(tok: &[Token], lo: usize, hi: usize, l: Level) -> (r: Option<usize>)
    requires
        lo <= hi <= tok@.len(),
    ensures
        match first_split(window(tok@, lo as int, hi as int), 0, 0, l) {
            None => r is None,
            Some(pos) => r == Some((lo + pos) as usize) && 0 <= pos < hi - lo && splits(
                window(tok@, lo as int, hi as int)[pos],
                l,
            ),
        },
{
    let ghost w = window(tok@, lo as int, hi as int);
    let mut up: usize = 0;
    let mut down: usize = 0;
    let mut i: usize = lo;
    while i < hi
        invariant
            lo <= i <= hi,
            hi <= tok@.len(),
            w == window(tok@, lo as int, hi as int),
            up <= i - lo,
            down <= i - lo,
            first_split(w, 0, 0, l) == first_split(w, i - lo, up - down, l),
        decreases hi - i,
    {
        let t = &tok[i];
        proof {
            assert(w[i - lo] == t@);
        }
        if up == down && token_splits(t, l) {
            return Some(i);
        }
        if token_opens(t) {
            up += 1;
        }
        if token_closes(t) {
            down += 1;
        }
        i += 1;
    }
    None
}

/// The end of the list item that begins at `from`, with the numbers of
/// opening and of closing tokens up to there.
fn find_item_end(tok: &[Token], lo: usize, hi: usize, from: usize, up: usize, down: usize) -> (r: (
    usize,
    usize,
    usize,
))
    requires
        lo <= from <= hi <= tok@.len(),
        up <= from - lo,
        down <= from - lo,
    ensures
        r.0 - lo == item_end(window(tok@, lo as int, hi as int), from - lo, up - down),
        r.1 - r.2 == item_depth(window(tok@, lo as int, hi as int), from - lo, up - down),
        from <= r.0 <= hi,
        r.1 <= r.0 - lo,
        r.2 <= r.0 - lo,
{
    let ghost w = window(tok@, lo as int, hi as int);
    let mut u: usize = up;
    let mut d: usize = down;
    let mut j: usize = from;
    while j < hi
        invariant
            from <= j <= hi,
            lo <= from,
            hi <= tok@.len(),
            w == window(tok@, lo as int, hi as int),
            u <= j - lo,
            d <= j - lo,
            item_end(w, from - lo, up - down) == item_end(w, j - lo, u - d),
            item_depth(w, from - lo, up - down) == item_depth(w, j - lo, u - d),
        decreases hi - j,
    {
        let t = &tok[j];
        proof {
            assert(w[j - lo] == t@);
        }
        let at_comma = match t {
            Token::Comma => true,
            _ => false,
        };
        if at_comma && u <= d {
            return (j, u, d);
        }
        if token_opens(t) {
            u += 1;
        }
        if token_closes(t) {
            d += 1;
        }
        j += 1;
    }
    (j, u, d)
}

/// Trees in front of a list may be given one by one.
proof fn lemma_front_step(before: Seq<Tree>, t: Tree, rest: Result<Seq<Tree>, ParseError>)
    ensures
        with_front(before, with_front(seq![t], rest)) == with_front(before.push(t), rest),
        with_front(Seq::empty(), rest) == rest,
        with_front(before, Ok(Seq::empty())) == Ok::<Seq<Tree>, ParseError>(before),
{
    match rest {
        Ok(r) => {
            assert(before + (seq![t] + r) =~= before.push(t) + r);
            assert(Seq::<Tree>::empty() + r =~= r);
        },
        Err(e) => {},
    }
    assert(before + Seq::<Tree>::empty() =~= before);
}

/// A window of a window is a window.
proof fn lemma_window(tok: Seq<Token>, lo: int, hi: int, a: int, b: int)
    requires
        0 <= lo <= hi <= tok.len(),
        0 <= a <= b <= hi - lo,
    ensures
        window(tok, lo, hi).subrange(a, b) == window(tok, lo + a, lo + b),
{
    assert(window(tok, lo, hi).subrange(a, b) =~= window(tok, lo + a, lo + b));
}

/// The tokens from `lo` up to `hi` at the level `l` of the grammar.
pub fn parse_level(tok: &[Token], lo: usize, hi: usize, l: Level) -> (r: Result<SyntaxNode, ParseError>)
    requires
        lo <= hi <= tok@.len(),
    ensures
        node_result(r) == parse_at(window(tok@, lo as int, hi as int), l),
    decreases hi - lo, 2 * rank(l) + 1, 0nat,
{
    let ghost w = window(tok@, lo as int, hi as int);
    let n: usize = hi - lo;
    match l {
        Level::ConstantLiteral => {
            if n != 1 {
                return Err(ParseError::NotSingleLiteral);
            }
            proof {
                assert(w[0] == tok@[lo as int]@);
            }
            match &tok[lo] {
                Token::Literal(x) => Ok(SyntaxNode::Constant(copy_name(x))),
                _ => Err(ParseError::NotLiteral),
            }
        },
        Level::Expression => {
            if n == 0 {
                return Err(ParseError::Empty);
            }
            proof {
                assert(w[0] == tok@[lo as int]@);
            }
            match &tok[lo] {
                Token::Identifier(x) => {
                    if n == 1 {
                        return Ok(SyntaxNode::Identifier(copy_name(x)));
                    }
                    proof {
                        assert(w[1] == tok@[lo + 1]@);
                    }
                    let paren = match &tok[lo + 1] {
                        Token::OpenParen => true,
                        _ => false,
                    };
                    if paren {
                        if n < 3 {
                            return Err(ParseError::NoClosingParen);
                        }
                        proof {
                            lemma_window(tok@, lo as int, hi as int, 2, n - 1);
                        }
                        match parse_list(tok, lo + 2, hi - 1, Level::Summand) {
                            Ok(args) => {
                                let node = SyntaxNode::Application(copy_name(x), args);
                                proof {
                                    assert(tree_of(node)->Application_1 =~= trees_of(args@));
                                }
                                Ok(node)
                            },
                            Err(e) => Err(e),
                        }
                    } else {
                        proof {
                            lemma_window(tok@, lo as int, hi as int, 1, n as int);
                        }
                        match parse_level(tok, lo + 1, hi, Level::Expression) {
                            Ok(arg) => {
                                let ghost t = tree_of(arg);
                                let mut args: Vec<SyntaxNode> = Vec::new();
                                args.push(arg);
                                let node = SyntaxNode::Application(copy_name(x), args);
                                proof {
                                    assert(tree_of(node)->Application_1 =~= seq![t]);
                                }
                                Ok(node)
                            },
                            Err(e) => Err(e),
                        }
                    }
                },
                Token::OpenParen => {
                    if n < 2 {
                        return Err(ParseError::NoClosingParen);
                    }
                    proof {
                        lemma_window(tok@, lo as int, hi as int, 1, n - 1);
                    }
                    parse_level(tok, lo + 1, hi - 1, Level::Summand)
                },
                Token::OpenBracket => {
                    if n < 2 {
                        return Err(ParseError::NoClosingBracket);
                    }
                    proof {
                        lemma_window(tok@, lo as int, hi as int, 1, n - 1);
                    }
                    match parse_list(tok, lo + 1, hi - 1, Level::ConstantSummand) {
                        Ok(items) => {
                            let node = SyntaxNode::Series(items);
                            proof {
                                assert(tree_of(node)->Series_0 =~= trees_of(items@));
                            }
                            Ok(node)
                        },
                        Err(e) => Err(e),
                    }
                },
                _ => parse_level(tok, lo, hi, Level::ConstantSummand),
            }
        },
        Level::Operand | Level::ConstantOperand => {
            if n == 0 {
                return Err(ParseError::Empty);
            }
            proof {
                assert(w[0] == tok@[lo as int]@);
            }
            if token_is_minus(&tok[lo]) {
                proof {
                    lemma_window(tok@, lo as int, hi as int, 1, n as int);
                }
                match parse_level(tok, lo + 1, hi, l) {
                    Ok(t) => Ok(SyntaxNode::UnaryOp(Operator::Sub, Box::new(t))),
                    Err(e) => Err(e),
                }
            } else {
                parse_chain(tok, lo, hi, l)
            }
        },
        _ => parse_chain(tok, lo, hi, l),
    }
}

/// The tokens from `lo` up to `hi` as a chain of level `l`.
pub fn parse_chain(tok: &[Token], lo: usize, hi: usize, l: Level) -> (r: Result<SyntaxNode, ParseError>)
    requires
        lo <= hi <= tok@.len(),
        !(l is Expression),
        !(l is ConstantLiteral),
    ensures
        node_result(r) == chain_at(window(tok@, lo as int, hi as int), l),
    decreases hi - lo, 2 * rank(l), 0nat,
{
    let ghost w = window(tok@, lo as int, hi as int);
    match find_split(tok, lo, hi, l) {
        None => parse_level(tok, lo, hi, level_below(l)),
        Some(pos) => {
            proof {
                assert(w[pos - lo] == tok@[pos as int]@);
                lemma_window(tok@, lo as int, hi as int, pos - lo + 1, hi - lo);
                lemma_window(tok@, lo as int, hi as int, 0, pos - lo);
            }
            let op = match &tok[pos] {
                Token::Operator(o) => *o,
                _ => Operator::Add,
            };
            match parse_chain(tok, pos + 1, hi, l) {
                Err(e) => Err(e),
                Ok(right) => match parse_level(tok, lo, pos, level_below(l)) {
                    Err(e) => Err(e),
                    Ok(left) => Ok(SyntaxNode::BinaryOp(Box::new(left), op, Box::new(right))),
                },
            }
        },
    }
}

/// The items of the list of the tokens from `lo` up to `hi`, each at the level `l`.
pub fn parse_list(tok: &[Token], lo: usize, hi: usize, l: Level) -> (r: Result<
    Vec<SyntaxNode>,
    ParseError,
>)
    requires
        lo <= hi <= tok@.len(),
    ensures
        nodes_result(r) == list_from(window(tok@, lo as int, hi as int), 0, 0, l),
    decreases hi - lo, 100nat, 0nat,
{
    let ghost w = window(tok@, lo as int, hi as int);
    let mut res: Vec<SyntaxNode> = Vec::new();
    let mut i: usize = lo;
    let mut up: usize = 0;
    let mut down: usize = 0;
    proof {
        assert(trees_of(res@) =~= Seq::<Tree>::empty());
        lemma_front_step(Seq::empty(), Tree::Series(Seq::empty()), list_from(w, 0, 0, l));
    }
    while i < hi
        invariant
            lo <= i <= hi,
            lo <= hi <= tok@.len(),
            w == window(tok@, lo as int, hi as int),
            up <= i - lo,
            down <= i - lo,
            list_from(w, 0, 0, l) == with_front(trees_of(res@), list_from(w, i - lo, up - down, l)),
        decreases hi - i,
    {
        let (j, u, d) = find_item_end(tok, lo, hi, i, up, down);
        proof {
            lemma_window(tok@, lo as int, hi as int, i - lo, j - lo);
        }
        match parse_level(tok, i, j, l) {
            Err(e) => {
                return Err(e);
            },
            Ok(node) => {
                let ghost before = trees_of(res@);
                let ghost t = tree_of(node);
                res.push(node);
                proof {
                    assert(trees_of(res@) =~= before.push(t));
                    let rest = if j < hi {
                        list_from(w, j - lo + 1, u - d, l)
                    } else {
                        Ok(Seq::empty())
                    };
                    lemma_front_step(before, t, rest);
                }
            },
        }
        i = if j < hi { j + 1 } else { hi };
        up = u;
        down = d;
    }
    proof {
        lemma_front_step(trees_of(res@), Tree::Series(Seq::empty()), Ok(Seq::empty()));
    }
    Ok(res)
}

/// The position of the first `:=` from `from` on between `lo` and `hi`, or `hi`.
fn find_define(tok: &[Token], lo: usize, hi: usize, from: usize) -> (r: usize)
    requires
        lo <= from <= hi <= tok@.len(),
    ensures
        r - lo == first_define(window(tok@, lo as int, hi as int), from - lo),
        from <= r <= hi,
{
    let ghost w = window(tok@, lo as int, hi as int);
    let mut i: usize = from;
    while i < hi
        invariant
            lo <= from <= i <= hi,
            hi <= tok@.len(),
            w == window(tok@, lo as int, hi as int),
            first_define(w, from - lo) == first_define(w, i - lo),
        decreases hi - i,
    {
        proof {
            assert(w[i - lo] == tok@[i as int]@);
        }
        if token_is_define(&tok[i]) {
            return i;
        }
        i += 1;
    }
    i
}

/// The command that the tokens from `lo` up to `hi` are.
pub fn parse_command(tok: &[Token], lo: usize, hi: usize) -> (r: Result<SyntaxNode, ParseError>)
    requires
        lo <= hi <= tok@.len(),
    ensures
        node_result(r) == command_of(window(tok@, lo as int, hi as int)),
{
    let ghost w = window(tok@, lo as int, hi as int);
    let n: usize = hi - lo;
    if n == 0 {
        return Err(ParseError::Empty);
    }
    proof {
        assert(w[0] == tok@[lo as int]@);
    }
    match &tok[lo] {
        Token::Let => {
            if n <= 3 {
                return Err(ParseError::LetTooShort);
            }
            proof {
                assert(w[1] == tok@[lo + 1]@);
                assert(w[2] == tok@[lo + 2]@);
                lemma_window(tok@, lo as int, hi as int, 3, n as int);
            }
            match &tok[lo + 1] {
                Token::Identifier(x) => {
                    if !token_is_define(&tok[lo + 2]) {
                        return Err(ParseError::LetNoDefine);
                    }
                    match parse_level(tok, lo + 3, hi, Level::Summand) {
                        Ok(t) => Ok(SyntaxNode::LetStatement(copy_name(x), Box::new(t))),
                        Err(e) => Err(e),
                    }
                },
                _ => Err(ParseError::LetNoName),
            }
        },
        Token::LetRec => {
            let d = find_define(tok, lo, hi, lo + 1);
            if d >= hi {
                return Err(ParseError::LetRecNoDefine);
            }
            proof {
                assert(w[d - lo] == tok@[d as int]@);
                lemma_window(tok@, lo as int, hi as int, 1, d - lo);
                lemma_window(tok@, lo as int, hi as int, d - lo + 1, n as int);
            }
            match parse_level(tok, lo + 1, d, Level::Summand) {
                Err(e) => Err(e),
                Ok(left) => match parse_level(tok, d + 1, hi, Level::Summand) {
                    Err(e) => Err(e),
                    Ok(right) => Ok(SyntaxNode::RecStatement(Box::new(left), Box::new(right))),
                },
            }
        },
        _ => parse_level(tok, lo, hi, Level::Summand),
    }
}

/// The commands that the tokens are: each ends at a semicolon or at the end
/// of the tokens.
///
/// Fails with the error of the first command that is none; a command
/// without tokens is none.
pub fn parse_commands(tok: &[Token]) -> (r: Result<Vec<SyntaxNode>, ParseError>)
    ensures
        nodes_result(r) == commands_from(token_views(tok@), 0),
{
    let ghost w = token_views(tok@);
    let n: usize = tok.len();
    let mut res: Vec<SyntaxNode> = Vec::new();
    let mut i: usize = 0;
    proof {
        assert(window(tok@, 0, n as int) =~= w);
        assert(trees_of(res@) =~= Seq::<Tree>::empty());
        lemma_front_step(Seq::empty(), Tree::Series(Seq::empty()), commands_from(w, 0));
    }
    while i < n
        invariant
            i <= n,
            n == tok@.len(),
            w == token_views(tok@),
            w == window(tok@, 0, n as int),
            commands_from(w, 0) == with_front(trees_of(res@), commands_from(w, i as int)),
        decreases n - i,
    {
        let mut j: usize = i;
        while j < n && !token_is_semicolon(&tok[j])
            invariant
                i <= j <= n,
                n == tok@.len(),
                w == token_views(tok@),
                command_end(w, i as int) == command_end(w, j as int),
            decreases n - j,
        {
            proof {
                assert(w[j as int] == tok@[j as int]@);
            }
            j += 1;
        }
        proof {
            if j < n {
                assert(w[j as int] == tok@[j as int]@);
            }
            assert(command_end(w, i as int) == j);
            lemma_window(tok@, 0, n as int, i as int, j as int);
        }
        match parse_command(tok, i, j) {
            Err(e) => {
                proof {
                    if i == j {
                        assert(window(tok@, i as int, j as int).len() == 0);
                    }
                }
                return Err(e);
            },
            Ok(node) => {
                let ghost before = trees_of(res@);
                let ghost t = tree_of(node);
                res.push(node);
                proof {
                    assert(window(tok@, i as int, j as int).len() == j - i);
                    assert(i < j);
                    assert(trees_of(res@) =~= before.push(t));
                    let rest = if j < n {
                        commands_from(w, j + 1)
                    } else {
                        Ok(Seq::empty())
                    };
                    lemma_front_step(before, t, rest);
                }
            },
        }
        i = if j < n { j + 1 } else { n };
    }
    proof {
        lemma_front_step(trees_of(res@), Tree::Series(Seq::empty()), Ok(Seq::empty()));
    }
    Ok(res)
}

} // verus!
