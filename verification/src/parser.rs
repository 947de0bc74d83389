//! The parser: reads a sequence of tokens as a program, one term after the
//! other, by recursive descent.
use crate::ast::{views, Argument, Expr, LVal, Param, Place, Program, Term, Val, Value};
use crate::constants::{Failure, Fault};
use crate::token::{Tok, Token};
use crate::typing::{Ty, Type};
use vstd::prelude::*;

verus! {

/// What reading a piece of syntax gives: the piece, and the position behind
/// its last token.
pub type Parsed<T> = Result<(T, nat), Fault>;

/// The token at the position `p`, if there is one.
pub open spec fn at(tokens: Seq<Tok>, p: nat) -> Option<Tok> {
    if p < tokens.len() {
        Some(tokens[p as int])
    } else {
        None
    }
}

/// The position behind the token `t`, which must stand at `p`.
pub open spec fn expect(tokens: Seq<Tok>, p: nat, t: Tok) -> Result<nat, Fault> {
    if at(tokens, p) == Some(t) {
        Ok(p + 1)
    } else {
        Err(Fault::Syntax(p as usize))
    }
}

/// An identifier at `p`.
pub open spec fn identifier_at(tokens: Seq<Tok>, p: nat) -> Parsed<Seq<char>> {
    match at(tokens, p) {
        Some(Tok::Identifier(s)) => Ok((s, p + 1)),
        _ => Err(Fault::Syntax(p as usize)),
    }
}

/// A place at `p`: an identifier behind any number of `*`.
pub open spec fn variable_at(tokens: Seq<Tok>, p: nat) -> Parsed<Place>
    decreases tokens.len() - p,
{
    match at(tokens, p) {
        Some(Tok::Identifier(s)) => Ok((Place::Variable { name: s, copyable: None }, p + 1)),
        Some(Tok::Deref) => match variable_at(tokens, p + 1) {
            Ok((v, q)) => Ok((Place::Deref { var: Box::new(v) }, q)),
            Err(e) => Err(e),
        },
        _ => Err(Fault::Syntax(p as usize)),
    }
}

/// A type at `p`: `int` behind any number of `box`.
pub open spec fn type_at(tokens: Seq<Tok>, p: nat) -> Parsed<Ty>
    decreases tokens.len() - p,
{
    match at(tokens, p) {
        Some(Tok::Identifier(s)) => if s == "int"@ {
            Ok((Ty::Numeric, p + 1))
        } else {
            Err(Fault::Syntax(p as usize))
        },
        Some(Tok::Box) => match type_at(tokens, p + 1) {
            Ok((t, q)) => Ok((Ty::Box(Box::new(t)), q)),
            Err(e) => Err(e),
        },
        _ => Err(Fault::Syntax(p as usize)),
    }
}

/// The name, the colon and the type of an argument, from `p` on.
pub open spec fn argument_at(tokens: Seq<Tok>, p: nat, mutable: bool, reference: bool) -> Parsed<
    Param,
> {
    match identifier_at(tokens, p) {
        Err(e) => Err(e),
        Ok((name, q)) => match expect(tokens, q, Tok::Colon) {
            Err(e) => Err(e),
            Ok(r) => match type_at(tokens, r) {
                Err(e) => Err(e),
                Ok((ty, s)) => Ok((Param { name, ty, mutable, reference }, s)),
            },
        },
    }
}

/// The arguments of a declaration from `p` up to the closing parenthesis,
/// which is not taken, behind the arguments `acc`. Commas may stand
/// anywhere between the arguments.
pub open spec fn args_at(tokens: Seq<Tok>, p: nat, acc: Seq<Param>) -> Parsed<Seq<Param>>
    decreases tokens.len() - p,
{
    match at(tokens, p) {
        Some(Tok::RParen) => Ok((acc, p)),
        Some(Tok::Comma) => args_at(tokens, p + 1, acc),
        Some(Tok::Identifier(_)) => match argument_at(tokens, p, false, false) {
            Err(e) => Err(e),
            Ok((a, q)) => if q <= p || q > tokens.len() {
                Err(Fault::Syntax(p as usize))
            } else {
                args_at(tokens, q, acc.push(a))
            },
        },
        Some(Tok::Ref) => match argument_at(tokens, p + 1, false, true) {
            Err(e) => Err(e),
            Ok((a, q)) => if q <= p || q > tokens.len() {
                Err(Fault::Syntax(p as usize))
            } else {
                args_at(tokens, q, acc.push(a))
            },
        },
        Some(Tok::Mut) => {
            let reference = at(tokens, p + 1) == Some(Tok::Ref);
            let start = if reference {
                p + 2
            } else {
                p + 1
            };
            match argument_at(tokens, start, true, reference) {
                Err(e) => Err(e),
                Ok((a, q)) => if q <= p || q > tokens.len() {
                    Err(Fault::Syntax(p as usize))
                } else {
                    args_at(tokens, q, acc.push(a))
                },
            }
        },
        _ => Err(Fault::Syntax(p as usize)),
    }
}

/// A term at `p`.
pub open spec fn term_at(tokens: Seq<Tok>, p: nat) -> Parsed<Expr>
    decreases tokens.len() - p, 2nat,
{
    match at(tokens, p) {
        Some(Tok::Fn) => declaration_at(tokens, p),
        Some(Tok::NumericLiteral(n)) => Ok((Expr::Value(Val::NumericLiteral(n)), p + 1)),
        Some(Tok::Identifier(s)) => if at(tokens, p + 1) == Some(Tok::Assign) {
            assignment_at(tokens, p)
        } else if at(tokens, p + 1) == Some(Tok::LParen) {
            call_at(tokens, p)
        } else {
            Ok((Expr::Variable(Place::Variable { name: s, copyable: None }), p + 1))
        },
        Some(Tok::Box) => match term_at(tokens, p + 1) {
            Ok((t, q)) => Ok((Expr::Box { term: Box::new(t) }, q)),
            Err(e) => Err(e),
        },
        Some(Tok::Mut) => match expect(tokens, p + 1, Tok::Ref) {
            Err(e) => Err(e),
            Ok(q) => match variable_at(tokens, q) {
                Ok((v, r)) => Ok((Expr::Ref { mutable: true, var: v }, r)),
                Err(e) => Err(e),
            },
        },
        Some(Tok::Ref) => match variable_at(tokens, p + 1) {
            Ok((v, r)) => Ok((Expr::Ref { mutable: false, var: v }, r)),
            Err(e) => Err(e),
        },
        Some(Tok::Let) => let_at(tokens, p),
        Some(Tok::Deref) => if at(tokens, p + 2) == Some(Tok::Assign) {
            assignment_at(tokens, p)
        } else {
            match variable_at(tokens, p + 1) {
                Ok((v, r)) => Ok((Expr::Variable(Place::Deref { var: Box::new(v) }), r)),
                Err(e) => Err(e),
            }
        },
        _ => Err(Fault::Syntax(p as usize)),
    }
}

/// A `let` at `p`: `let mut`, a place, `=` and a term.
pub open spec fn let_at(tokens: Seq<Tok>, p: nat) -> Parsed<Expr>
    decreases tokens.len() - p, 1nat,
{
    match expect(tokens, p, Tok::Let) {
        Err(e) => Err(e),
        Ok(p1) => match expect(tokens, p1, Tok::Mut) {
            Err(e) => Err(e),
            Ok(p2) => match variable_at(tokens, p2) {
                Err(e) => Err(e),
                Ok((v, q)) => match expect(tokens, q, Tok::Assign) {
                    Err(e) => Err(e),
                    Ok(q1) => if q1 <= p {
                        Err(Fault::Syntax(p as usize))
                    } else {
                        match term_at(tokens, q1) {
                            Err(e) => Err(e),
                            Ok((t, r)) => Ok(
                                (
                                    Expr::Let { mutable: true, variable: v, term: Box::new(t) },
                                    r,
                                ),
                            ),
                        }
                    },
                },
            },
        },
    }
}

/// An assignment at `p`: a place, `=` and a term.
pub open spec fn assignment_at(tokens: Seq<Tok>, p: nat) -> Parsed<Expr>
    decreases tokens.len() - p, 1nat,
{
    match variable_at(tokens, p) {
        Err(e) => Err(e),
        Ok((v, q)) => match expect(tokens, q, Tok::Assign) {
            Err(e) => Err(e),
            Ok(q1) => if q1 <= p {
                Err(Fault::Syntax(p as usize))
            } else {
                match term_at(tokens, q1) {
                    Err(e) => Err(e),
                    Ok((t, r)) => Ok((Expr::Assign { variable: v, term: Box::new(t) }, r)),
                }
            },
        },
    }
}

/// The return type of a declaration, if a colon stands at `p`.
pub open spec fn return_type_at(tokens: Seq<Tok>, p: nat) -> Parsed<Option<Ty>> {
    if at(tokens, p) == Some(Tok::Colon) {
        match type_at(tokens, p + 1) {
            Ok((t, q)) => Ok((Some(t), q)),
            Err(e) => Err(e),
        }
    } else {
        Ok((None, p))
    }
}

/// A declaration at `p`: `fn`, the name, the arguments in parentheses, a
/// return type behind a colon if there is one, and the body in braces.
pub open spec fn declaration_at(tokens: Seq<Tok>, p: nat) -> Parsed<Expr>
    decreases tokens.len() - p, 1nat,
{
    match expect(tokens, p, Tok::Fn) {
        Err(e) => Err(e),
        Ok(p1) => match identifier_at(tokens, p1) {
            Err(e) => Err(e),
            Ok((name, p2)) => match expect(tokens, p2, Tok::LParen) {
                Err(e) => Err(e),
                Ok(p3) => match args_at(tokens, p3, Seq::empty()) {
                    Err(e) => Err(e),
                    Ok((args, q)) => match expect(tokens, q, Tok::RParen) {
                        Err(e) => Err(e),
                        Ok(q1) => match return_type_at(tokens, q1) {
                            Err(e) => Err(e),
                            Ok((ty, r)) => match expect(tokens, r, Tok::LCurl) {
                                Err(e) => Err(e),
                                Ok(r1) => if r1 <= p {
                                    Err(Fault::Syntax(p as usize))
                                } else {
                                    match body_at(tokens, r1, Seq::empty()) {
                                        Err(e) => Err(e),
                                        Ok((body, s)) => match expect(tokens, s, Tok::RCurl) {
                                            Err(e) => Err(e),
                                            Ok(s1) => Ok(
                                                (
                                                    Expr::FunctionDeclaration {
                                                        name,
                                                        args,
                                                        body,
                                                        ty,
                                                    },
                                                    s1,
                                                ),
                                            ),
                                        },
                                    }
                                },
                            },
                        },
                    },
                },
            },
        },
    }
}

/// The terms of a body from `p` up to the closing brace, which is not
/// taken, or up to the end, behind the terms `acc`. A body has at least one
/// term.
pub open spec fn body_at(tokens: Seq<Tok>, p: nat, acc: Seq<Expr>) -> Parsed<Seq<Expr>>
    decreases tokens.len() - p, 3nat,
{
    match term_at(tokens, p) {
        Err(e) => Err(e),
        Ok((t, q)) => if q <= p {
            Err(Fault::Syntax(p as usize))
        } else if at(tokens, q) == Some(Tok::RCurl) || at(tokens, q) is None {
            Ok((acc.push(t), q))
        } else {
            body_at(tokens, q, acc.push(t))
        },
    }
}

/// A call at `p`: the name and the parameters in parentheses.
pub open spec fn call_at(tokens: Seq<Tok>, p: nat) -> Parsed<Expr>
    decreases tokens.len() - p, 1nat,
{
    match identifier_at(tokens, p) {
        Err(e) => Err(e),
        Ok((name, p1)) => match expect(tokens, p1, Tok::LParen) {
            Err(e) => Err(e),
            Ok(p2) => if p2 <= p {
                Err(Fault::Syntax(p as usize))
            } else {
                match params_at(tokens, p2, Seq::empty()) {
                    Err(e) => Err(e),
                    Ok((params, q)) => match expect(tokens, q, Tok::RParen) {
                        Err(e) => Err(e),
                        Ok(q1) => Ok((Expr::FunctionCall { name, params }, q1)),
                    },
                }
            },
        },
    }
}

/// The parameters of a call from `p` up to the closing parenthesis, which
/// is not taken, behind the parameters `acc`. Commas may stand anywhere
/// between the parameters.
pub open spec fn params_at(tokens: Seq<Tok>, p: nat, acc: Seq<Expr>) -> Parsed<Seq<Expr>>
    decreases tokens.len() - p, 3nat,
{
    match at(tokens, p) {
        Some(Tok::RParen) => Ok((acc, p)),
        Some(Tok::Comma) => params_at(tokens, p + 1, acc),
        _ => match term_at(tokens, p) {
            Err(e) => Err(e),
            Ok((t, q)) => if q <= p || q > tokens.len() {
                Err(Fault::Syntax(p as usize))
            } else {
                params_at(tokens, q, acc.push(t))
            },
        },
    }
}

/// The terms of a program from `p` to the end, behind the terms `acc`. A
/// program has at least one term.
pub open spec fn program_at(tokens: Seq<Tok>, p: nat, acc: Seq<Expr>) -> Result<Seq<Expr>, Fault>
    decreases tokens.len() - p,
{
    match term_at(tokens, p) {
        Err(e) => Err(e),
        Ok((t, q)) => if q <= p {
            Err(Fault::Syntax(p as usize))
        } else if at(tokens, q) is None {
            Ok(acc.push(t))
        } else {
            program_at(tokens, q, acc.push(t))
        },
    }
}

/// The model of what an executable parse gives.
pub open spec fn parsed<T: View>(r: Result<(T, usize), Failure>) -> Parsed<T::V> {
    match r {
        Ok((x, q)) => Ok((x@, q as nat)),
        Err(e) => Err(e@),
    }
}

/// Whether a parse that began at `pos` ended behind it, within the tokens.
pub open spec fn advanced<T>(r: Result<(T, usize), Failure>, pos: usize, len: nat) -> bool {
    match r {
        Ok((_, q)) => pos < q <= len,
        Err(_) => true,
    }
}

/// The parser: the tokens, and how many of them have been read.
pub struct Parser {
    pub tokens: Vec<Token>,
    pub current_position: usize,
}

/// The model of a `Parser`.
pub struct Reader {
    pub tokens: Seq<Tok>,
    pub current_position: usize,
}

impl View for Parser {
    type V = Reader;

    open spec fn view(&self) -> Reader {
        Reader { tokens: views(self.tokens@), current_position: self.current_position }
    }
}

/// What kind of token stands at a position, for the choices that the parser
/// makes by looking ahead.
#[derive(Clone, Copy, PartialEq, Eq, Structural)]
pub enum Kind {
    Number,
    Word,
    Box,
    Ref,
    Deref,
    Let,
    Mut,
    Assign,
    Fn,
    LParen,
    RParen,
    LCurl,
    RCurl,
    Comma,
    Colon,
    End,
}

/// The kind of a token.
pub open spec fn kind_of(t: Option<Tok>) -> Kind {
    match t {
        None => Kind::End,
        Some(Tok::NumericLiteral(_)) => Kind::Number,
        Some(Tok::Identifier(_)) => Kind::Word,
        Some(Tok::Box) => Kind::Box,
        Some(Tok::Ref) => Kind::Ref,
        Some(Tok::Deref) => Kind::Deref,
        Some(Tok::Let) => Kind::Let,
        Some(Tok::Mut) => Kind::Mut,
        Some(Tok::Assign) => Kind::Assign,
        Some(Tok::Fn) => Kind::Fn,
        Some(Tok::LParen) => Kind::LParen,
        Some(Tok::RParen) => Kind::RParen,
        Some(Tok::LCurl) => Kind::LCurl,
        Some(Tok::RCurl) => Kind::RCurl,
        Some(Tok::Comma) => Kind::Comma,
        Some(Tok::Colon) => Kind::Colon,
        Some(Tok::EOF) => Kind::End,
    }
}

impl Parser {
    /// A parser on `tokens`.
    pub fn new(tokens: Vec<Token>) -> (r: Parser)
        ensures
            r@ == (Reader { tokens: views(tokens@), current_position: 0 }),
    {
        Parser { tokens, current_position: 0 }
    }

    /// The kind of the token at `pos`. The end-of-input token, which the
    /// lexer never gives, counts as the end.
    pub fn kind(&self, pos: usize) -> (k: Kind)
        ensures
            k == kind_of(at(self@.tokens, pos as nat)),
    {
        if pos < self.tokens.len() {
            match &self.tokens[pos] {
                Token::NumericLiteral(_) => Kind::Number,
                Token::Identifier(_) => Kind::Word,
                Token::Box => Kind::Box,
                Token::Ref => Kind::Ref,
                Token::Deref => Kind::Deref,
                Token::Let => Kind::Let,
                Token::Mut => Kind::Mut,
                Token::Assign => Kind::Assign,
                Token::Fn => Kind::Fn,
                Token::LParen => Kind::LParen,
                Token::RParen => Kind::RParen,
                Token::LCurl => Kind::LCurl,
                Token::RCurl => Kind::RCurl,
                Token::Comma => Kind::Comma,
                Token::Colon => Kind::Colon,
                Token::EOF => Kind::End,
            }
        } else {
            Kind::End
        }
    }
}

/// The token of a kind that has one token only.
pub open spec fn sign(k: Kind) -> Tok {
    match k {
        Kind::Box => Tok::Box,
        Kind::Ref => Tok::Ref,
        Kind::Deref => Tok::Deref,
        Kind::Let => Tok::Let,
        Kind::Mut => Tok::Mut,
        Kind::Assign => Tok::Assign,
        Kind::Fn => Tok::Fn,
        Kind::LParen => Tok::LParen,
        Kind::RParen => Tok::RParen,
        Kind::LCurl => Tok::LCurl,
        Kind::RCurl => Tok::RCurl,
        Kind::Comma => Tok::Comma,
        Kind::Colon => Tok::Colon,
        _ => Tok::EOF,
    }
}

/// Whether the kind has one token only.
pub open spec fn is_sign(k: Kind) -> bool {
    !(k is Number || k is Word || k is End)
}

impl Parser {
    /// The position behind the token of the kind `kind`, which must stand
    /// at `pos`.
    pub fn check_consume(&self, pos: usize, kind: Kind) -> (r: Result<usize, Failure>)
        requires
            is_sign(kind),
        ensures
            match r {
                Ok(q) => expect(self@.tokens, pos as nat, sign(kind)) == Ok::<nat, Fault>(q as nat)
                    && q == pos + 1 && q <= self@.tokens.len(),
                Err(e) => expect(self@.tokens, pos as nat, sign(kind)) == Err::<nat, Fault>(e@),
            },
    {
        if pos < self.tokens.len() && self.kind(pos) == kind {
            assert(at(self@.tokens, pos as nat) == Some(sign(kind)));
            Ok(pos + 1)
        } else {
            Err(Failure::Syntax(pos))
        }
    }

    /// An identifier at `pos`.
    pub fn parse_identifier(&self, pos: usize) -> (r: Result<(String, usize), Failure>)
        ensures
            parsed(r) == identifier_at(self@.tokens, pos as nat),
            advanced(r, pos, self@.tokens.len()),
    {
        if pos < self.tokens.len() {
            match &self.tokens[pos] {
                Token::Identifier(s) => Ok((s.clone(), pos + 1)),
                _ => Err(Failure::Syntax(pos)),
            }
        } else {
            Err(Failure::Syntax(pos))
        }
    }

    /// A place at `pos`.
    pub fn parse_variable(&self, pos: usize) -> (r: Result<(LVal, usize), Failure>)
        ensures
            parsed(r) == variable_at(self@.tokens, pos as nat),
            advanced(r, pos, self@.tokens.len()),
        decreases self@.tokens.len() - pos,
    {
        if pos < self.tokens.len() {
            match &self.tokens[pos] {
                Token::Identifier(s) => Ok(
                    (LVal::Variable { name: s.clone(), copyable: None }, pos + 1),
                ),
                Token::Deref => match self.parse_variable(pos + 1) {
                    Ok((v, q)) => Ok((LVal::Deref { var: Box::new(v) }, q)),
                    Err(e) => Err(e),
                },
                _ => Err(Failure::Syntax(pos)),
            }
        } else {
            Err(Failure::Syntax(pos))
        }
    }

    /// A type at `pos`.
    pub fn parse_type(&self, pos: usize) -> (r: Result<(Type, usize), Failure>)
        ensures
            parsed(r) == type_at(self@.tokens, pos as nat),
            advanced(r, pos, self@.tokens.len()),
        decreases self@.tokens.len() - pos,
    {
        if pos < self.tokens.len() {
            match &self.tokens[pos] {
                Token::Identifier(s) => {
                    if *s == String::from_str("int") {
                        Ok((Type::Numeric, pos + 1))
                    } else {
                        Err(Failure::Syntax(pos))
                    }
                },
                Token::Box => match self.parse_type(pos + 1) {
                    Ok((t, q)) => Ok((Type::Box(Box::new(t)), q)),
                    Err(e) => Err(e),
                },
                _ => Err(Failure::Syntax(pos)),
            }
        } else {
            Err(Failure::Syntax(pos))
        }
    }

    /// The name, the colon and the type of an argument, from `pos` on.
    pub fn parse_argument(
        &self,
        pos: usize,
        mutable: bool,
        reference: bool,
    ) -> (r: Result<(Argument, usize), Failure>)
        ensures
            parsed(r) == argument_at(self@.tokens, pos as nat, mutable, reference),
            advanced(r, pos, self@.tokens.len()),
    {
        match self.parse_identifier(pos) {
            Err(e) => Err(e),
            Ok((name, q)) => match self.check_consume(q, Kind::Colon) {
                Err(e) => Err(e),
                Ok(r) => match self.parse_type(r) {
                    Err(e) => Err(e),
                    Ok((ty, s)) => Ok((Argument { name, ty, mutable, reference }, s)),
                },
            },
        }
    }

    /// The arguments of a declaration from `pos` up to the closing
    /// parenthesis.
    pub fn parse_args(&self, pos: usize) -> (r: Result<(Vec<Argument>, usize), Failure>)
        ensures
            match r {
                Ok((args, q)) => args_at(self@.tokens, pos as nat, Seq::empty()) == Ok::<
                    (Seq<Param>, nat),
                    Fault,
                >((views(args@), q as nat)) && pos <= q <= self@.tokens.len(),
                Err(e) => args_at(self@.tokens, pos as nat, Seq::empty()) == Err::<
                    (Seq<Param>, nat),
                    Fault,
                >(e@),
            },
    {
        let mut args: Vec<Argument> = Vec::new();
        let mut p: usize = pos;
        assert(views(args@) =~= Seq::empty());
        loop
            invariant
                pos <= p,
                args_at(self@.tokens, pos as nat, Seq::empty()) == args_at(
                    self@.tokens,
                    p as nat,
                    views(args@),
                ),
            decreases self@.tokens.len() - p,
        {
            let ghost before = views(args@);
            let k = self.kind(p);
            if p >= self.tokens.len() {
                return Err(Failure::Syntax(p));
            }
            let found = match k {
                Kind::RParen => {
                    return Ok((args, p));
                },
                Kind::Comma => None,
                Kind::Word => Some(self.parse_argument(p, false, false)),
                Kind::Ref => Some(self.parse_argument(p + 1, false, true)),
                Kind::Mut => {
                    let reference = self.kind(p + 1) == Kind::Ref;
                    let start = if reference {
                        p + 2
                    } else {
                        p + 1
                    };
                    Some(self.parse_argument(start, true, reference))
                },
                _ => {
                    return Err(Failure::Syntax(p));
                },
            };
            match found {
                None => {
                    p = p + 1;
                },
                Some(Err(e)) => {
                    return Err(e);
                },
                Some(Ok((a, q))) => {
                    args.push(a);
                    assert(views(args@) =~= before.push(args@[args@.len() - 1]@));
                    p = q;
                },
            }
        }
    }

    /// A term at `pos`.
    pub fn parse_term(&self, pos: usize) -> (r: Result<(Term, usize), Failure>)
        ensures
            parsed(r) == term_at(self@.tokens, pos as nat),
            advanced(r, pos, self@.tokens.len()),
        decreases self@.tokens.len() - pos, 2nat,
    {
        if pos >= self.tokens.len() {
            return Err(Failure::Syntax(pos));
        }
        match &self.tokens[pos] {
            Token::Fn => self.parse_function_declaration(pos),
            Token::NumericLiteral(n) => Ok((Term::Value(Value::NumericLiteral(*n)), pos + 1)),
            Token::Identifier(s) => {
                let next = self.kind(pos + 1);
                if pos + 1 < self.tokens.len() && next == Kind::Assign {
                    self.parse_assignment(pos)
                } else if pos + 1 < self.tokens.len() && next == Kind::LParen {
                    self.parse_function_call(pos)
                } else {
                    Ok(
                        (
                            Term::Variable(LVal::Variable { name: s.clone(), copyable: None }),
                            pos + 1,
                        ),
                    )
                }
            },
            Token::Box => match self.parse_term(pos + 1) {
                Ok((t, q)) => Ok((Term::Box { term: Box::new(t) }, q)),
                Err(e) => Err(e),
            },
            Token::Mut => match self.check_consume(pos + 1, Kind::Ref) {
                Err(e) => Err(e),
                Ok(q) => match self.parse_variable(q) {
                    Ok((v, r)) => Ok((Term::Ref { mutable: true, var: v }, r)),
                    Err(e) => Err(e),
                },
            },
            Token::Ref => match self.parse_variable(pos + 1) {
                Ok((v, r)) => Ok((Term::Ref { mutable: false, var: v }, r)),
                Err(e) => Err(e),
            },
            Token::Let => self.parse_let(pos),
            Token::Deref => {
                let assigns = pos + 1 < self.tokens.len() && self.kind(pos + 2) == Kind::Assign;
                if assigns {
                    self.parse_assignment(pos)
                } else {
                    match self.parse_variable(pos + 1) {
                        Ok((v, r)) => Ok((Term::Variable(LVal::Deref { var: Box::new(v) }), r)),
                        Err(e) => Err(e),
                    }
                }
            },
            _ => Err(Failure::Syntax(pos)),
        }
    }

    /// A `let` at `pos`.
    pub fn parse_let(&self, pos: usize) -> (r: Result<(Term, usize), Failure>)
        ensures
            parsed(r) == let_at(self@.tokens, pos as nat),
            advanced(r, pos, self@.tokens.len()),
        decreases self@.tokens.len() - pos, 1nat,
    {
        match self.check_consume(pos, Kind::Let) {
            Err(e) => Err(e),
            Ok(p1) => match self.check_consume(p1, Kind::Mut) {
                Err(e) => Err(e),
                Ok(p2) => match self.parse_variable(p2) {
                    Err(e) => Err(e),
                    Ok((v, q)) => match self.check_consume(q, Kind::Assign) {
                        Err(e) => Err(e),
                        Ok(q1) => match self.parse_term(q1) {
                            Err(e) => Err(e),
                            Ok((t, r)) => Ok(
                                (Term::Let { mutable: true, variable: v, term: Box::new(t) }, r),
                            ),
                        },
                    },
                },
            },
        }
    }

    /// An assignment at `pos`.
    pub fn parse_assignment(&self, pos: usize) -> (r: Result<(Term, usize), Failure>)
        ensures
            parsed(r) == assignment_at(self@.tokens, pos as nat),
            advanced(r, pos, self@.tokens.len()),
        decreases self@.tokens.len() - pos, 1nat,
    {
        match self.parse_variable(pos) {
            Err(e) => Err(e),
            Ok((v, q)) => match self.check_consume(q, Kind::Assign) {
                Err(e) => Err(e),
                Ok(q1) => match self.parse_term(q1) {
                    Err(e) => Err(e),
                    Ok((t, r)) => Ok((Term::Assign { variable: v, term: Box::new(t) }, r)),
                },
            },
        }
    }

    /// The return type of a declaration, if a colon stands at `pos`.
    pub fn parse_return_type(&self, pos: usize) -> (r: Result<(Option<Type>, usize), Failure>)
        ensures
            match r {
                Ok((ty, q)) => return_type_at(self@.tokens, pos as nat) == Ok::<
                    (Option<Ty>, nat),
                    Fault,
                >((crate::ast::option_view(ty), q as nat)) && pos <= q && (q == pos || q
                    <= self@.tokens.len()),
                Err(e) => return_type_at(self@.tokens, pos as nat) == Err::<
                    (Option<Ty>, nat),
                    Fault,
                >(e@),
            },
    {
        if pos < self.tokens.len() && self.kind(pos) == Kind::Colon {
            match self.parse_type(pos + 1) {
                Ok((t, q)) => Ok((Some(t), q)),
                Err(e) => Err(e),
            }
        } else {
            Ok((None, pos))
        }
    }

    /// A declaration at `pos`.
    pub fn parse_function_declaration(&self, pos: usize) -> (r: Result<(Term, usize), Failure>)
        ensures
            parsed(r) == declaration_at(self@.tokens, pos as nat),
            advanced(r, pos, self@.tokens.len()),
        decreases self@.tokens.len() - pos, 1nat,
    {
        let p1 = match self.check_consume(pos, Kind::Fn) {
            Err(e) => {
                return Err(e);
            },
            Ok(p1) => p1,
        };
        let (name, p2) = match self.parse_identifier(p1) {
            Err(e) => {
                return Err(e);
            },
            Ok(found) => found,
        };
        let p3 = match self.check_consume(p2, Kind::LParen) {
            Err(e) => {
                return Err(e);
            },
            Ok(p3) => p3,
        };
        let (args, q) = match self.parse_args(p3) {
            Err(e) => {
                return Err(e);
            },
            Ok(found) => found,
        };
        let q1 = match self.check_consume(q, Kind::RParen) {
            Err(e) => {
                return Err(e);
            },
            Ok(q1) => q1,
        };
        let (ty, r) = match self.parse_return_type(q1) {
            Err(e) => {
                return Err(e);
            },
            Ok(found) => found,
        };
        let r1 = match self.check_consume(r, Kind::LCurl) {
            Err(e) => {
                return Err(e);
            },
            Ok(r1) => r1,
        };
        let (body, s) = match self.parse_body(r1) {
            Err(e) => {
                return Err(e);
            },
            Ok(found) => found,
        };
        let s1 = match self.check_consume(s, Kind::RCurl) {
            Err(e) => {
                return Err(e);
            },
            Ok(s1) => s1,
        };
        let out = Term::FunctionDeclaration { name, args, body, ty };
        proof {
            out.lemma_model();
        }
        Ok((out, s1))
    }

    /// The terms of a body from `pos` up to the closing brace or the end.
    pub fn parse_body(&self, pos: usize) -> (r: Result<(Vec<Term>, usize), Failure>)
        ensures
            match r {
                Ok((body, q)) => body_at(self@.tokens, pos as nat, Seq::empty()) == Ok::<
                    (Seq<Expr>, nat),
                    Fault,
                >((views(body@), q as nat)) && pos < q <= self@.tokens.len(),
                Err(e) => body_at(self@.tokens, pos as nat, Seq::empty()) == Err::<
                    (Seq<Expr>, nat),
                    Fault,
                >(e@),
            },
        decreases self@.tokens.len() - pos, 3nat,
    {
        let mut body: Vec<Term> = Vec::new();
        let mut p: usize = pos;
        assert(views(body@) =~= Seq::empty());
        loop
            invariant
                pos <= p,
                p == pos || p < self@.tokens.len(),
                body_at(self@.tokens, pos as nat, Seq::empty()) == body_at(
                    self@.tokens,
                    p as nat,
                    views(body@),
                ),
            decreases self@.tokens.len() - p,
        {
            let ghost before = views(body@);
            match self.parse_term(p) {
                Err(e) => {
                    return Err(e);
                },
                Ok((t, q)) => {
                    body.push(t);
                    assert(views(body@) =~= before.push(body@[body@.len() - 1]@));
                    let k = self.kind(q);
                    if q >= self.tokens.len() || k == Kind::RCurl {
                        return Ok((body, q));
                    }
                    p = q;
                },
            }
        }
    }

    /// A call at `pos`.
    pub fn parse_function_call(&self, pos: usize) -> (r: Result<(Term, usize), Failure>)
        ensures
            parsed(r) == call_at(self@.tokens, pos as nat),
            advanced(r, pos, self@.tokens.len()),
        decreases self@.tokens.len() - pos, 1nat,
    {
        let (name, p1) = match self.parse_identifier(pos) {
            Err(e) => {
                return Err(e);
            },
            Ok(found) => found,
        };
        let p2 = match self.check_consume(p1, Kind::LParen) {
            Err(e) => {
                return Err(e);
            },
            Ok(p2) => p2,
        };
        let (params, q) = match self.parse_params(p2) {
            Err(e) => {
                return Err(e);
            },
            Ok(found) => found,
        };
        let q1 = match self.check_consume(q, Kind::RParen) {
            Err(e) => {
                return Err(e);
            },
            Ok(q1) => q1,
        };
        let out = Term::FunctionCall { name, params };
        proof {
            out.lemma_model();
        }
        Ok((out, q1))
    }

    /// The parameters of a call from `pos` up to the closing parenthesis.
    pub fn parse_params(&self, pos: usize) -> (r: Result<(Vec<Term>, usize), Failure>)
        ensures
            match r {
                Ok((params, q)) => params_at(self@.tokens, pos as nat, Seq::empty()) == Ok::<
                    (Seq<Expr>, nat),
                    Fault,
                >((views(params@), q as nat)) && pos <= q <= self@.tokens.len(),
                Err(e) => params_at(self@.tokens, pos as nat, Seq::empty()) == Err::<
                    (Seq<Expr>, nat),
                    Fault,
                >(e@),
            },
        decreases self@.tokens.len() - pos, 3nat,
    {
        let mut params: Vec<Term> = Vec::new();
        let mut p: usize = pos;
        assert(views(params@) =~= Seq::empty());
        loop
            invariant
                pos <= p,
                p == pos || p <= self@.tokens.len(),
                params_at(self@.tokens, pos as nat, Seq::empty()) == params_at(
                    self@.tokens,
                    p as nat,
                    views(params@),
                ),
            decreases self@.tokens.len() - p,
        {
            let ghost before = views(params@);
            let k = self.kind(p);
            if p < self.tokens.len() && k == Kind::RParen {
                return Ok((params, p));
            }
            if p < self.tokens.len() && k == Kind::Comma {
                p = p + 1;
            } else {
                match self.parse_term(p) {
                    Err(e) => {
                        return Err(e);
                    },
                    Ok((t, q)) => {
                        params.push(t);
                        assert(views(params@) =~= before.push(params@[params@.len() - 1]@));
                        p = q;
                    },
                }
            }
        }
    }

    /// Reads the tokens from the current position to the end as a program.
    /// Afterwards the position is behind the last token on success, and
    /// where it was on failure.
    pub fn parse(&mut self) -> (r: Result<Program, Failure>)
        ensures
            final(self)@.tokens == old(self)@.tokens,
            match r {
                Ok(program) => program_at(
                    old(self)@.tokens,
                    old(self)@.current_position as nat,
                    Seq::empty(),
                ) == Ok::<Seq<Expr>, Fault>(program@) && final(self)@.current_position == old(
                    self,
                )@.tokens.len(),
                Err(e) => program_at(
                    old(self)@.tokens,
                    old(self)@.current_position as nat,
                    Seq::empty(),
                ) == Err::<Seq<Expr>, Fault>(e@) && final(self)@.current_position == old(
                    self,
                )@.current_position,
            },
    {
        let mut terms: Vec<Term> = Vec::new();
        let mut p: usize = self.current_position;
        assert(views(terms@) =~= Seq::empty());
        loop
            invariant
                *self == *old(self),
                self.current_position <= p,
                program_at(self@.tokens, self.current_position as nat, Seq::empty())
                    == program_at(self@.tokens, p as nat, views(terms@)),
            decreases self@.tokens.len() - p,
        {
            let ghost before = views(terms@);
            match self.parse_term(p) {
                Err(e) => {
                    return Err(e);
                },
                Ok((t, q)) => {
                    terms.push(t);
                    assert(views(terms@) =~= before.push(terms@[terms@.len() - 1]@));
                    if q >= self.tokens.len() {
                        self.current_position = q;
                        return Ok(Program { terms });
                    }
                    p = q;
                },
            }
        }
    }
}

} // verus!
