//! The typed tree the front end hands over, with the per-node information
//! (type annotations, positions) that passes attach and strip.
use crate::bitstream::{FunctionArg, TypeInformation};
use crate::plaintext::{dec_text, push_dec, push_str};
use vstd::string::StringSliceAdditionalSpecFns;
use vstd::prelude::*;

verus! {

/// The kind of a token, with its literal value where it has one.
#[derive(Clone, Debug, PartialEq)]
pub enum TokenType {
    Integer(i64),
    Boolean(bool),
    Str(Vec<u8>),
    Identifier(Vec<u8>),
    Plus,
    Minus,
    Star,
    Slash,
    Bang,
    EqualEqual,
    Greater,
    Less,
    Eof,
}

/// A token and where it was found in the source.
#[derive(Clone, Debug, PartialEq)]
pub struct Token {
    pub ty: TokenType,
    pub line_num: usize,
    pub char_loc: usize,
}

impl Token {
    pub fn new(ty: TokenType, line_num: usize, char_loc: usize) -> (r: Token)
        ensures
            r == (Token { ty, line_num, char_loc }),
    {
        Token { ty, line_num, char_loc }
    }

    /// The same token without its source position.
    pub fn strip_information(self) -> (r: Token)
        ensures
            r == (Token { ty: self.ty, line_num: 0, char_loc: 0 }),
    {
        Token { ty: self.ty, line_num: 0, char_loc: 0 }
    }
}

/// A statement of a block.
#[derive(Debug, PartialEq)]
pub enum Statement<T> {
    PrintStatement { expression: Expression<T>, information: T },
    ExpressionStatement { expression: Expression<T>, information: T },
}

/// An expression node; `information` is what passes attach to it.
#[derive(Debug, PartialEq)]
pub enum Expression<T> {
    Binary { left: Box<Expression<T>>, operator: Token, right: Box<Expression<T>>, information: T },
    Unary { operator: Token, right: Box<Expression<T>>, information: T },
    Literal { literal: Token, information: T },
    Sequence { seq: Vec<Expression<T>>, information: T },
    Assignment { name: Vec<u8>, value: Box<Expression<T>>, information: T },
    If {
        check_expression: Box<Expression<T>>,
        body: Box<Expression<T>>,
        else_body: Option<Box<Expression<T>>>,
        information: T,
    },
    BlockExpression { statements: Vec<Statement<T>>, final_expression: Option<Box<Expression<T>>>, information: T },
    LoopExpression { predicate: Option<Box<Expression<T>>>, body: Box<Expression<T>>, information: T },
    Call { callee: Box<Expression<T>>, args: Vec<Expression<T>>, information: T },
    Return { ret: Option<Box<Expression<T>>>, information: T },
}

/// Which variant a node is, as a number.
pub open spec fn kind<T>(e: Expression<T>) -> nat {
    match e {
        Expression::Binary { .. } => 0,
        Expression::Unary { .. } => 1,
        Expression::Literal { .. } => 2,
        Expression::Sequence { .. } => 3,
        Expression::Assignment { .. } => 4,
        Expression::If { .. } => 5,
        Expression::BlockExpression { .. } => 6,
        Expression::LoopExpression { .. } => 7,
        Expression::Call { .. } => 8,
        Expression::Return { .. } => 9,
    }
}

/// The information attached to the node itself.
pub open spec fn info<T>(e: Expression<T>) -> T {
    match e {
        Expression::Binary { information, .. } => information,
        Expression::Unary { information, .. } => information,
        Expression::Literal { information, .. } => information,
        Expression::Sequence { information, .. } => information,
        Expression::Assignment { information, .. } => information,
        Expression::If { information, .. } => information,
        Expression::BlockExpression { information, .. } => information,
        Expression::LoopExpression { information, .. } => information,
        Expression::Call { information, .. } => information,
        Expression::Return { information, .. } => information,
    }
}

impl<T> Expression<T> {
    /// The information attached to this node.
    pub fn information(&self) -> (r: &T)
        ensures
            *r == info(*self),
    {
        match self {
            Expression::Binary { information, .. } => information,
            Expression::Unary { information, .. } => information,
            Expression::Literal { information, .. } => information,
            Expression::Sequence { information, .. } => information,
            Expression::Assignment { information, .. } => information,
            Expression::If { information, .. } => information,
            Expression::BlockExpression { information, .. } => information,
            Expression::LoopExpression { information, .. } => information,
            Expression::Call { information, .. } => information,
            Expression::Return { information, .. } => information,
        }
    }

    /// The same tree with every node's information replaced by `()`.
    pub fn strip_information(self) -> (r: Expression<()>)
        ensures
            mapped(self, r, forget::<T>, same_token),
            kind(r) == kind(self),
    {
        let r = transform(self, &forget::<T>, &same_token);
        proof {
            lemma_mapped_node(self, r, forget::<T>, same_token);
        }
        r
    }

    /// The same tree with every token's source position cleared; node
    /// information is kept.
    pub fn strip_token_information(self) -> (r: Expression<T>)
        ensures
            retokened(self, r, strip_position),
            kind(r) == kind(self),
            info(r) == info(self),
    {
        let r = retoken(self, &strip_position);
        proof {
            lemma_retokened_node(self, r, strip_position);
        }
        r
    }

    /// The same tree with `map_fn` applied to every node's information.
    pub fn map_information<V, F: Fn(T) -> V>(self, map_fn: &F) -> (r: Expression<V>)
        requires
            forall|t: T| #[trigger] map_fn.requires((t,)),
        ensures
            mapped(self, r, *map_fn, same_token),
    {
        transform(self, map_fn, &same_token)
    }
}

/// A tree handed from the front end: a root expression and its information.
#[derive(Debug, PartialEq)]
pub struct AbstractTree<T> {
    pub root: Expression<T>,
    pub information: T,
}

impl<T> AbstractTree<T> {
    /// A tree with `root` at its root.
    pub fn expression(root: Expression<T>, information: T) -> (r: AbstractTree<T>)
        ensures
            r == (AbstractTree { root, information }),
    {
        AbstractTree { root, information }
    }

    /// The same tree with all information replaced by `()`.
    pub fn strip_information(self) -> (r: AbstractTree<()>)
        ensures
            mapped(self.root, r.root, forget::<T>, same_token),
            kind(r.root) == kind(self.root),
    {
        AbstractTree { root: self.root.strip_information(), information: () }
    }

    /// The same tree with token positions cleared.
    pub fn strip_token_information(self) -> (r: AbstractTree<T>)
        ensures
            retokened(self.root, r.root, strip_position),
            kind(r.root) == kind(self.root),
            info(r.root) == info(self.root),
            r.information == self.information,
    {
        AbstractTree { root: self.root.strip_token_information(), information: self.information }
    }
}

/// A function as the parser produces it: arguments, body, name (UTF-8
/// bytes), declared return type and information.
#[derive(Debug, PartialEq)]
pub struct Function<T> {
    pub args: Vec<FunctionArg>,
    pub chunk: AbstractTree<T>,
    pub name: Vec<u8>,
    pub return_ty: TypeInformation,
    pub information: T,
}

impl<T> Function<T> {
    /// The information attached to the function.
    pub fn information(&self) -> (r: &T)
        ensures
            *r == self.information,
    {
        &self.information
    }

    /// The same function with all information replaced by `()`.
    pub fn strip_information(self) -> (r: Function<()>)
        ensures
            r.args == self.args,
            r.name == self.name,
            r.return_ty == self.return_ty,
            mapped(self.chunk.root, r.chunk.root, forget::<T>, same_token),
            kind(r.chunk.root) == kind(self.chunk.root),
    {
        Function {
            args: self.args,
            chunk: self.chunk.strip_information(),
            name: self.name,
            return_ty: self.return_ty,
            information: (),
        }
    }

    /// The same function with token positions cleared in its body.
    pub fn strip_token_information(self) -> (r: Function<T>)
        ensures
            r.args == self.args,
            r.name == self.name,
            r.return_ty == self.return_ty,
            r.information == self.information,
            retokened(self.chunk.root, r.chunk.root, strip_position),
            kind(r.chunk.root) == kind(self.chunk.root),
            info(r.chunk.root) == info(self.chunk.root),
    {
        Function {
            args: self.args,
            chunk: self.chunk.strip_token_information(),
            name: self.name,
            return_ty: self.return_ty,
            information: self.information,
        }
    }
}

/// Something that parses itself into `Out`.
pub trait Parser {
    type Out;

    fn parse(self) -> Self::Out;
}

/// Why parsing failed: at a token, or elsewhere.
#[derive(Debug)]
pub enum ParseError {
    TokenError { token: Token, msg: &'static str },
    Other { msg: &'static str },
}

/// How a parse error is reported.
pub open spec fn parse_error_text(e: ParseError) -> Seq<u8> {
    match e {
        ParseError::TokenError { token, msg } => if token.ty is Eof {
            "[Parse] Error: ".spec_bytes() + msg.spec_bytes() + " at end of file".spec_bytes()
        } else {
            "[Parse] Error: ".spec_bytes() + msg.spec_bytes() + " at line ".spec_bytes() + dec_text(token.line_num as int)
                + ", character ".spec_bytes() + dec_text(token.char_loc as int)
        },
        ParseError::Other { msg } => "[Parse] Error: ".spec_bytes() + msg.spec_bytes(),
    }
}

impl ParseError {
    /// An error at `token`.
    pub fn from_token(token: Token, msg: &'static str) -> (r: ParseError)
        ensures
            r == (ParseError::TokenError { token, msg }),
    {
        ParseError::TokenError { token, msg }
    }

    /// An error at no particular token.
    pub fn from_other(msg: &'static str) -> (r: ParseError)
        ensures
            r == (ParseError::Other { msg }),
    {
        ParseError::Other { msg }
    }

    /// The report of this error, as UTF-8 bytes.
    pub fn describe(&self) -> (r: Vec<u8>)
        ensures
            r@ == parse_error_text(*self),
    {
        let mut out: Vec<u8> = Vec::new();
        push_str(&mut out, "[Parse] Error: ");
        match self {
            ParseError::TokenError { token, msg } => {
                push_str(&mut out, msg);
                if matches!(token.ty, TokenType::Eof) {
                    push_str(&mut out, " at end of file");
                } else {
                    push_str(&mut out, " at line ");
                    push_dec(&mut out, token.line_num as i128);
                    push_str(&mut out, ", character ");
                    push_dec(&mut out, token.char_loc as i128);
                }
            },
            ParseError::Other { msg } => {
                push_str(&mut out, msg);
            },
        }
        assert(out@ =~= parse_error_text(*self));
        out
    }
}

/// `()` whatever the information.
pub fn forget<T>(_i: T) -> (o: ())
    ensures
        o == (),
{
    ()
}

/// `t` without its source position.
pub fn strip_position(t: Token) -> (o: Token)
    ensures
        o == (Token { ty: t.ty, line_num: 0, char_loc: 0 }),
{
    t.strip_information()
}

/// `t` unchanged.
pub fn same_token(t: Token) -> (r: Token)
    ensures
        r == t,
{
    t
}

broadcast use vstd::std_specs::vec::group_vec_axioms;

/// Whether the optional children `a` and `b` are both absent, or both
/// present and related by `mapped`.
pub open spec fn opt_mapped<T, V, F: Fn(T) -> V, G: Fn(Token) -> Token>(a: Option<Box<Expression<T>>>, b: Option<Box<Expression<V>>>, f: F, tok: G) -> bool
    decreases a,
{
    match (a, b) {
        (None, None) => true,
        (Some(x), Some(y)) => mapped(*x, *y, f, tok),
        _ => false,
    }
}

/// Whether statement `r` is `s` rebuilt as `mapped` says.
pub open spec fn stmt_mapped<T, V, F: Fn(T) -> V, G: Fn(Token) -> Token>(s: Statement<T>, r: Statement<V>, f: F, tok: G) -> bool
    decreases s,
{
    match (s, r) {
        (Statement::PrintStatement { expression, information }, Statement::PrintStatement { expression: e2, information: i2 }) =>
            f.ensures((information,), i2) && mapped(expression, e2, f, tok),
        (Statement::ExpressionStatement { expression, information }, Statement::ExpressionStatement { expression: e2, information: i2 }) =>
            f.ensures((information,), i2) && mapped(expression, e2, f, tok),
        _ => false,
    }
}

/// Whether `r` is `e` rebuilt node for node, each node's information being
/// what `f` gives for the matching node's information in `e`.
pub open spec fn mapped<T, V, F: Fn(T) -> V, G: Fn(Token) -> Token>(e: Expression<T>, r: Expression<V>, f: F, tok: G) -> bool
    decreases e,
{
    &&& kind(r) == kind(e)
    &&& f.ensures((info(e),), info(r))
    &&& match (e, r) {
        (Expression::Binary { left, operator, right, .. }, Expression::Binary { left: l2, operator: o2, right: r2, .. }) =>
            tok.ensures((operator,), o2) && mapped(*left, *l2, f, tok) && mapped(*right, *r2, f, tok),
        (Expression::Unary { operator, right, .. }, Expression::Unary { operator: o2, right: r2, .. }) =>
            tok.ensures((operator,), o2) && mapped(*right, *r2, f, tok),
        (Expression::Literal { literal, .. }, Expression::Literal { literal: l2, .. }) => tok.ensures((literal,), l2),
        (Expression::Sequence { seq, .. }, Expression::Sequence { seq: s2, .. }) =>
            seq@.len() == s2@.len() && forall|i: int| 0 <= i < seq@.len() ==> mapped(#[trigger] seq@[i], s2@[i], f, tok),
        (Expression::Assignment { name, value, .. }, Expression::Assignment { name: n2, value: v2, .. }) =>
            name == n2 && mapped(*value, *v2, f, tok),
        (Expression::If { check_expression, body, else_body, .. }, Expression::If { check_expression: c2, body: b2, else_body: e2, .. }) =>
            mapped(*check_expression, *c2, f, tok) && mapped(*body, *b2, f, tok) && opt_mapped(else_body, e2, f, tok),
        (Expression::BlockExpression { statements, final_expression, .. }, Expression::BlockExpression { statements: s2, final_expression: f2, .. }) =>
            statements@.len() == s2@.len() && opt_mapped(final_expression, f2, f, tok)
                && forall|i: int| 0 <= i < statements@.len() ==> stmt_mapped(#[trigger] statements@[i], s2@[i], f, tok),
        (Expression::LoopExpression { predicate, body, .. }, Expression::LoopExpression { predicate: p2, body: b2, .. }) =>
            opt_mapped(predicate, p2, f, tok) && mapped(*body, *b2, f, tok),
        (Expression::Call { callee, args, .. }, Expression::Call { callee: c2, args: a2, .. }) =>
            mapped(*callee, *c2, f, tok) && args@.len() == a2@.len()
                && forall|i: int| 0 <= i < args@.len() ==> mapped(#[trigger] args@[i], a2@[i], f, tok),
        (Expression::Return { ret, .. }, Expression::Return { ret: r2, .. }) => opt_mapped(ret, r2, f, tok),
        _ => true,
    }
}

/// A node related by `mapped` is of the same kind, and its information is
/// what `f` gives.
pub proof fn lemma_mapped_node<T, V, F: Fn(T) -> V, G: Fn(Token) -> Token>(e: Expression<T>, r: Expression<V>, f: F, tok: G)
    requires
        mapped(e, r, f, tok),
    ensures
        kind(r) == kind(e),
        f.ensures((info(e),), info(r)),
{
    reveal_with_fuel(mapped, 1);
}

/// Rebuilds `e` with `f` applied to every node's information and `tok` to
/// every operator and literal token.
fn transform<T, V, F: Fn(T) -> V, G: Fn(Token) -> Token>(e: Expression<T>, f: &F, tok: &G) -> (r: Expression<V>)
    requires
        forall|t: T| #[trigger] f.requires((t,)),
        forall|t: Token| #[trigger] tok.requires((t,)),
    ensures
        mapped(e, r, *f, *tok),
    decreases e,
{
    match e {
        Expression::Binary { left, operator, right, information } => Expression::Binary {
            left: Box::new(transform(*left, f, tok)),
            operator: tok(operator),
            right: Box::new(transform(*right, f, tok)),
            information: f(information),
        },
        Expression::Unary { operator, right, information } => Expression::Unary {
            operator: tok(operator),
            right: Box::new(transform(*right, f, tok)),
            information: f(information),
        },
        Expression::Literal { literal, information } => Expression::Literal { literal: tok(literal), information: f(information) },
        Expression::Sequence { seq, information } => Expression::Sequence {
            seq: transform_all(seq, f, tok),
            information: f(information),
        },
        Expression::Assignment { name, value, information } => Expression::Assignment {
            name,
            value: Box::new(transform(*value, f, tok)),
            information: f(information),
        },
        Expression::If { check_expression, body, else_body, information } => {
            let check_expression = Box::new(transform(*check_expression, f, tok));
            let body = Box::new(transform(*body, f, tok));
            let else_body = transform_opt(else_body, f, tok);
            Expression::If { check_expression, body, else_body, information: f(information) }
        },
        Expression::BlockExpression { statements, final_expression, information } => {
            let statements = transform_statements(statements, f, tok);
            let final_expression = transform_opt(final_expression, f, tok);
            Expression::BlockExpression { statements, final_expression, information: f(information) }
        },
        Expression::LoopExpression { predicate, body, information } => {
            let predicate = transform_opt(predicate, f, tok);
            Expression::LoopExpression { predicate, body: Box::new(transform(*body, f, tok)), information: f(information) }
        },
        Expression::Call { callee, args, information } => {
            let callee = Box::new(transform(*callee, f, tok));
            Expression::Call { callee, args: transform_all(args, f, tok), information: f(information) }
        },
        Expression::Return { ret, information } => {
            let ret = transform_opt(ret, f, tok);
            Expression::Return { ret, information: f(information) }
        },
    }
}

/// `transform` on an optional child.
fn transform_opt<T, V, F: Fn(T) -> V, G: Fn(Token) -> Token>(o: Option<Box<Expression<T>>>, f: &F, tok: &G) -> (r: Option<Box<Expression<V>>>)
    requires
        forall|t: T| #[trigger] f.requires((t,)),
        forall|t: Token| #[trigger] tok.requires((t,)),
    ensures
        opt_mapped(o, r, *f, *tok),
    decreases o,
{
    match o {
        Some(b) => {
            let x = transform(*b, f, tok);
            Some(Box::new(x))
        },
        None => None,
    }
}

/// `transform` on each expression, keeping the order.
fn transform_all<T, V, F: Fn(T) -> V, G: Fn(Token) -> Token>(v: Vec<Expression<T>>, f: &F, tok: &G) -> (r: Vec<Expression<V>>)
    requires
        forall|t: T| #[trigger] f.requires((t,)),
        forall|t: Token| #[trigger] tok.requires((t,)),
    ensures
        r@.len() == v@.len(),
        forall|i: int| 0 <= i < v@.len() ==> mapped(#[trigger] v@[i], r@[i], *f, *tok),
    decreases v,
{
    let ghost orig = v;
    let mut rest = v;
    let mut rev: Vec<Expression<V>> = Vec::new();
    while rest.len() > 0
        invariant
            forall|t: T| #[trigger] f.requires((t,)),
            forall|t: Token| #[trigger] tok.requires((t,)),
            orig == v,
            rest@ == orig@.take(rest@.len() as int),
            rest@.len() + rev@.len() == orig@.len(),
            forall|i: int| 0 <= i < rev@.len() ==> mapped(orig@[orig@.len() - 1 - i], #[trigger] rev@[i], *f, *tok),
        decreases rest@.len(),
    {
        let ghost k = rest@.len() - 1;
        let x = rest.pop().unwrap();
        proof {
            assert(x == orig@[k]);
            vstd::std_specs::vec::axiom_vec_index_decreases(orig, k);
            assert(decreases_to!(v => x));
            assert(rest@ =~= orig@.take(k));
        }
        rev.push(transform(x, f, tok));
    }
    let mut out: Vec<Expression<V>> = Vec::new();
    while rev.len() > 0
        invariant
            out@.len() + rev@.len() == orig@.len(),
            forall|i: int| 0 <= i < rev@.len() ==> mapped(orig@[orig@.len() - 1 - i], #[trigger] rev@[i], *f, *tok),
            forall|i: int| 0 <= i < out@.len() ==> mapped(orig@[i], #[trigger] out@[i], *f, *tok),
        decreases rev@.len(),
    {
        let ghost k = rev@.len() - 1;
        let y = rev.pop().unwrap();
        proof {
            assert(mapped(orig@[orig@.len() - 1 - k], y, *f, *tok));
        }
        out.push(y);
    }
    out
}

/// Rebuilds a statement as `transform` does an expression.
fn transform_statement<T, V, F: Fn(T) -> V, G: Fn(Token) -> Token>(s: Statement<T>, f: &F, tok: &G) -> (r: Statement<V>)
    requires
        forall|t: T| #[trigger] f.requires((t,)),
        forall|t: Token| #[trigger] tok.requires((t,)),
    ensures
        stmt_mapped(s, r, *f, *tok),
    decreases s,
{
    match s {
        Statement::PrintStatement { expression, information } => Statement::PrintStatement {
            expression: transform(expression, f, tok),
            information: f(information),
        },
        Statement::ExpressionStatement { expression, information } => Statement::ExpressionStatement {
            expression: transform(expression, f, tok),
            information: f(information),
        },
    }
}

/// `transform_statement` on each statement, keeping the order and count.
fn transform_statements<T, V, F: Fn(T) -> V, G: Fn(Token) -> Token>(v: Vec<Statement<T>>, f: &F, tok: &G) -> (r: Vec<Statement<V>>)
    requires
        forall|t: T| #[trigger] f.requires((t,)),
        forall|t: Token| #[trigger] tok.requires((t,)),
    ensures
        r@.len() == v@.len(),
        forall|i: int| 0 <= i < v@.len() ==> stmt_mapped(#[trigger] v@[i], r@[i], *f, *tok),
    decreases v,
{
    let ghost orig = v;
    let mut rest = v;
    let mut rev: Vec<Statement<V>> = Vec::new();
    while rest.len() > 0
        invariant
            forall|t: T| #[trigger] f.requires((t,)),
            forall|t: Token| #[trigger] tok.requires((t,)),
            orig == v,
            rest@ == orig@.take(rest@.len() as int),
            rest@.len() + rev@.len() == orig@.len(),
            forall|i: int| 0 <= i < rev@.len() ==> stmt_mapped(orig@[orig@.len() - 1 - i], #[trigger] rev@[i], *f, *tok),
        decreases rest@.len(),
    {
        let ghost k = rest@.len() - 1;
        let x = rest.pop().unwrap();
        proof {
            assert(x == orig@[k]);
            vstd::std_specs::vec::axiom_vec_index_decreases(orig, k);
            assert(decreases_to!(v => x));
            assert(rest@ =~= orig@.take(k));
        }
        rev.push(transform_statement(x, f, tok));
    }
    let mut out: Vec<Statement<V>> = Vec::new();
    while rev.len() > 0
        invariant
            out@.len() + rev@.len() == orig@.len(),
            forall|i: int| 0 <= i < rev@.len() ==> stmt_mapped(orig@[orig@.len() - 1 - i], #[trigger] rev@[i], *f, *tok),
            forall|i: int| 0 <= i < out@.len() ==> stmt_mapped(orig@[i], #[trigger] out@[i], *f, *tok),
        decreases rev@.len(),
    {
        let ghost k = rev@.len() - 1;
        let y = rev.pop().unwrap();
        proof {
            assert(stmt_mapped(orig@[orig@.len() - 1 - k], y, *f, *tok));
        }
        out.push(y);
    }
    out
}


/// Whether the optional children `a` and `b` are both absent, or both
/// present and related by `retokened`.
pub open spec fn opt_retokened<T, G: Fn(Token) -> Token>(a: Option<Box<Expression<T>>>, b: Option<Box<Expression<T>>>, tok: G) -> bool
    decreases a,
{
    match (a, b) {
        (None, None) => true,
        (Some(x), Some(y)) => retokened(*x, *y, tok),
        _ => false,
    }
}

/// Whether statement `r` is `s` rebuilt as `retokened` says.
pub open spec fn stmt_retokened<T, G: Fn(Token) -> Token>(s: Statement<T>, r: Statement<T>, tok: G) -> bool
    decreases s,
{
    match (s, r) {
        (Statement::PrintStatement { expression, information }, Statement::PrintStatement { expression: e2, information: i2 }) =>
            information == i2 && retokened(expression, e2, tok),
        (Statement::ExpressionStatement { expression, information }, Statement::ExpressionStatement { expression: e2, information: i2 }) =>
            information == i2 && retokened(expression, e2, tok),
        _ => false,
    }
}

/// Whether `r` is `e` rebuilt node for node with the same information,
/// each operator and literal token what `tok` gives for the matching one;
/// the callee of a call is kept exactly as it is.
pub open spec fn retokened<T, G: Fn(Token) -> Token>(e: Expression<T>, r: Expression<T>, tok: G) -> bool
    decreases e,
{
    &&& kind(r) == kind(e)
    &&& info(r) == info(e)
    &&& match (e, r) {
        (Expression::Binary { left, operator, right, .. }, Expression::Binary { left: l2, operator: o2, right: r2, .. }) =>
            tok.ensures((operator,), o2) && retokened(*left, *l2, tok) && retokened(*right, *r2, tok),
        (Expression::Unary { operator, right, .. }, Expression::Unary { operator: o2, right: r2, .. }) =>
            tok.ensures((operator,), o2) && retokened(*right, *r2, tok),
        (Expression::Literal { literal, .. }, Expression::Literal { literal: l2, .. }) => tok.ensures((literal,), l2),
        (Expression::Sequence { seq, .. }, Expression::Sequence { seq: s2, .. }) =>
            seq@.len() == s2@.len() && forall|i: int| 0 <= i < seq@.len() ==> retokened(#[trigger] seq@[i], s2@[i], tok),
        (Expression::Assignment { name, value, .. }, Expression::Assignment { name: n2, value: v2, .. }) =>
            name == n2 && retokened(*value, *v2, tok),
        (Expression::If { check_expression, body, else_body, .. }, Expression::If { check_expression: c2, body: b2, else_body: e2, .. }) =>
            retokened(*check_expression, *c2, tok) && retokened(*body, *b2, tok) && opt_retokened(else_body, e2, tok),
        (Expression::BlockExpression { statements, final_expression, .. }, Expression::BlockExpression { statements: s2, final_expression: f2, .. }) =>
            statements@.len() == s2@.len() && opt_retokened(final_expression, f2, tok)
                && forall|i: int| 0 <= i < statements@.len() ==> stmt_retokened(#[trigger] statements@[i], s2@[i], tok),
        (Expression::LoopExpression { predicate, body, .. }, Expression::LoopExpression { predicate: p2, body: b2, .. }) =>
            opt_retokened(predicate, p2, tok) && retokened(*body, *b2, tok),
        (Expression::Call { callee, args, .. }, Expression::Call { callee: c2, args: a2, .. }) =>
            *callee == *c2 && args@.len() == a2@.len()
                && forall|i: int| 0 <= i < args@.len() ==> retokened(#[trigger] args@[i], a2@[i], tok),
        (Expression::Return { ret, .. }, Expression::Return { ret: r2, .. }) => opt_retokened(ret, r2, tok),
        _ => true,
    }
}

/// A node related by `retokened` is of the same kind, with the same information.
pub proof fn lemma_retokened_node<T, G: Fn(Token) -> Token>(e: Expression<T>, r: Expression<T>, tok: G)
    requires
        retokened(e, r, tok),
    ensures
        kind(r) == kind(e),
        info(r) == info(e),
{
    reveal_with_fuel(retokened, 1);
}

/// Rebuilds `e` with `tok` applied to every operator and literal token,
/// keeping all information and leaving each call's callee as it is.
fn retoken<T, G: Fn(Token) -> Token>(e: Expression<T>, tok: &G) -> (r: Expression<T>)
    requires
        forall|t: Token| #[trigger] tok.requires((t,)),
    ensures
        retokened(e, r, *tok),
    decreases e,
{
    match e {
        Expression::Binary { left, operator, right, information } => Expression::Binary {
            left: Box::new(retoken(*left, tok)),
            operator: tok(operator),
            right: Box::new(retoken(*right, tok)),
            information: information,
        },
        Expression::Unary { operator, right, information } => Expression::Unary {
            operator: tok(operator),
            right: Box::new(retoken(*right, tok)),
            information: information,
        },
        Expression::Literal { literal, information } => Expression::Literal { literal: tok(literal), information: information },
        Expression::Sequence { seq, information } => Expression::Sequence {
            seq: retoken_all(seq, tok),
            information: information,
        },
        Expression::Assignment { name, value, information } => Expression::Assignment {
            name,
            value: Box::new(retoken(*value, tok)),
            information: information,
        },
        Expression::If { check_expression, body, else_body, information } => {
            let check_expression = Box::new(retoken(*check_expression, tok));
            let body = Box::new(retoken(*body, tok));
            let else_body = retoken_opt(else_body, tok);
            Expression::If { check_expression, body, else_body, information: information }
        },
        Expression::BlockExpression { statements, final_expression, information } => {
            let statements = retoken_statements(statements, tok);
            let final_expression = retoken_opt(final_expression, tok);
            Expression::BlockExpression { statements, final_expression, information: information }
        },
        Expression::LoopExpression { predicate, body, information } => {
            let predicate = retoken_opt(predicate, tok);
            Expression::LoopExpression { predicate, body: Box::new(retoken(*body, tok)), information: information }
        },
        Expression::Call { callee, args, information } => {
            Expression::Call { callee, args: retoken_all(args, tok), information: information }
        },
        Expression::Return { ret, information } => {
            let ret = retoken_opt(ret, tok);
            Expression::Return { ret, information: information }
        },
    }
}

/// `retoken` on an optional child.
fn retoken_opt<T, G: Fn(Token) -> Token>(o: Option<Box<Expression<T>>>, tok: &G) -> (r: Option<Box<Expression<T>>>)
    requires
        forall|t: Token| #[trigger] tok.requires((t,)),
    ensures
        opt_retokened(o, r, *tok),
    decreases o,
{
    match o {
        Some(b) => {
            let x = retoken(*b, tok);
            Some(Box::new(x))
        },
        None => None,
    }
}

/// `retoken` on each expression, keeping the order.
fn retoken_all<T, G: Fn(Token) -> Token>(v: Vec<Expression<T>>, tok: &G) -> (r: Vec<Expression<T>>)
    requires
        forall|t: Token| #[trigger] tok.requires((t,)),
    ensures
        r@.len() == v@.len(),
        forall|i: int| 0 <= i < v@.len() ==> retokened(#[trigger] v@[i], r@[i], *tok),
    decreases v,
{
    let ghost orig = v;
    let mut rest = v;
    let mut rev: Vec<Expression<T>> = Vec::new();
    while rest.len() > 0
        invariant
            forall|t: Token| #[trigger] tok.requires((t,)),
            orig == v,
            rest@ == orig@.take(rest@.len() as int),
            rest@.len() + rev@.len() == orig@.len(),
            forall|i: int| 0 <= i < rev@.len() ==> retokened(orig@[orig@.len() - 1 - i], #[trigger] rev@[i], *tok),
        decreases rest@.len(),
    {
        let ghost k = rest@.len() - 1;
        let x = rest.pop().unwrap();
        proof {
            assert(x == orig@[k]);
            vstd::std_specs::vec::axiom_vec_index_decreases(orig, k);
            assert(decreases_to!(v => x));
            assert(rest@ =~= orig@.take(k));
        }
        rev.push(retoken(x, tok));
    }
    let mut out: Vec<Expression<T>> = Vec::new();
    while rev.len() > 0
        invariant
            out@.len() + rev@.len() == orig@.len(),
            forall|i: int| 0 <= i < rev@.len() ==> retokened(orig@[orig@.len() - 1 - i], #[trigger] rev@[i], *tok),
            forall|i: int| 0 <= i < out@.len() ==> retokened(orig@[i], #[trigger] out@[i], *tok),
        decreases rev@.len(),
    {
        let ghost k = rev@.len() - 1;
        let y = rev.pop().unwrap();
        proof {
            assert(retokened(orig@[orig@.len() - 1 - k], y, *tok));
        }
        out.push(y);
    }
    out
}

/// Rebuilds a statement as `retoken` does an expression.
fn retoken_statement<T, G: Fn(Token) -> Token>(s: Statement<T>, tok: &G) -> (r: Statement<T>)
    requires
        forall|t: Token| #[trigger] tok.requires((t,)),
    ensures
        stmt_retokened(s, r, *tok),
    decreases s,
{
    match s {
        Statement::PrintStatement { expression, information } => Statement::PrintStatement {
            expression: retoken(expression, tok),
            information: information,
        },
        Statement::ExpressionStatement { expression, information } => Statement::ExpressionStatement {
            expression: retoken(expression, tok),
            information: information,
        },
    }
}

/// `retoken_statement` on each statement, keeping the order and count.
fn retoken_statements<T, G: Fn(Token) -> Token>(v: Vec<Statement<T>>, tok: &G) -> (r: Vec<Statement<T>>)
    requires
        forall|t: Token| #[trigger] tok.requires((t,)),
    ensures
        r@.len() == v@.len(),
        forall|i: int| 0 <= i < v@.len() ==> stmt_retokened(#[trigger] v@[i], r@[i], *tok),
    decreases v,
{
    let ghost orig = v;
    let mut rest = v;
    let mut rev: Vec<Statement<T>> = Vec::new();
    while rest.len() > 0
        invariant
            forall|t: Token| #[trigger] tok.requires((t,)),
            orig == v,
            rest@ == orig@.take(rest@.len() as int),
            rest@.len() + rev@.len() == orig@.len(),
            forall|i: int| 0 <= i < rev@.len() ==> stmt_retokened(orig@[orig@.len() - 1 - i], #[trigger] rev@[i], *tok),
        decreases rest@.len(),
    {
        let ghost k = rest@.len() - 1;
        let x = rest.pop().unwrap();
        proof {
            assert(x == orig@[k]);
            vstd::std_specs::vec::axiom_vec_index_decreases(orig, k);
            assert(decreases_to!(v => x));
            assert(rest@ =~= orig@.take(k));
        }
        rev.push(retoken_statement(x, tok));
    }
    let mut out: Vec<Statement<T>> = Vec::new();
    while rev.len() > 0
        invariant
            out@.len() + rev@.len() == orig@.len(),
            forall|i: int| 0 <= i < rev@.len() ==> stmt_retokened(orig@[orig@.len() - 1 - i], #[trigger] rev@[i], *tok),
            forall|i: int| 0 <= i < out@.len() ==> stmt_retokened(orig@[i], #[trigger] out@[i], *tok),
        decreases rev@.len(),
    {
        let ghost k = rev@.len() - 1;
        let y = rev.pop().unwrap();
        proof {
            assert(stmt_retokened(orig@[orig@.len() - 1 - k], y, *tok));
        }
        out.push(y);
    }
    out
}

} // verus!
