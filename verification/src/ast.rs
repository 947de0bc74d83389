//! The syntax of Mu: values, lvalues, terms and programs, each with its
//! mathematical model.
use crate::constants::{verdict, Failure, Fault};
use crate::reduction::Evaluate;
use crate::table::Replicate;
use crate::text::{decimal, decimal_text, signed_decimal, signed_decimal_text};
use crate::typecheck::TypeCheck;
use crate::typing::{Ty, Type};
use vstd::prelude::*;

verus! {

/// The models of the elements of `s`, in order.
pub open spec fn views<T: View>(s: Seq<T>) -> Seq<T::V> {
    Seq::new(s.len(), |i: int| s[i]@)
}

/// A pointer to a store cell. An owned pointer is a box and carries the
/// ownership of its cell; one that is not owned is a borrow.
#[derive(Debug, Clone, PartialEq, Eq, Hash)]
pub struct Reference {
    pub location: usize,
    pub path: Vec<usize>,
    pub owned: bool,
}

/// The model of a `Reference`.
pub struct Pointer {
    pub location: usize,
    pub path: Seq<usize>,
    pub owned: bool,
}

impl View for Reference {
    type V = Pointer;

    open spec fn view(&self) -> Pointer {
        Pointer { location: self.location, path: self.path@, owned: self.owned }
    }
}

impl Replicate for Reference {
    fn replicate(&self) -> (r: Reference) {
        let mut path: Vec<usize> = Vec::new();
        let mut i: usize = 0;
        while i < self.path.len()
            invariant
                i <= self.path@.len(),
                path@ == self.path@.take(i as int),
            decreases self.path@.len() - i,
        {
            path.push(self.path[i]);
            assert(path@ =~= self.path@.take(i + 1));
            i = i + 1;
        }
        assert(path@ =~= self.path@);
        Reference { location: self.location, path, owned: self.owned }
    }
}

impl Pointer {
    /// How the address reads in a report.
    pub open spec fn text(self) -> Seq<char> {
        "l-"@ + decimal(self.location as nat)
    }
}

impl Reference {
    /// How the address reads in a report.
    pub fn to_string(&self) -> (s: String)
        ensures
            s@ == self@.text(),
    {
        let mut s = String::from_str("l-");
        s.append(decimal_text(self.location as u64).as_str());
        s
    }

    /// Whether two references have the same model.
    pub fn same(&self, other: &Reference) -> (b: bool)
        ensures
            b == (self@ == other@),
    {
        if self.location != other.location || self.owned != other.owned || self.path.len()
            != other.path.len() {
            return false;
        }
        let mut i: usize = 0;
        while i < self.path.len()
            invariant
                i <= self.path@.len(),
                self.path@.len() == other.path@.len(),
                self.path@.take(i as int) == other.path@.take(i as int),
            decreases self.path@.len() - i,
        {
            if self.path[i] != other.path[i] {
                return false;
            }
            assert(self.path@.take(i + 1) =~= self.path@.take(i as int).push(self.path@[i as int]));
            assert(other.path@.take(i + 1) =~= other.path@.take(i as int).push(
                other.path@[i as int],
            ));
            i = i + 1;
        }
        assert(self.path@ =~= self.path@.take(i as int));
        assert(other.path@ =~= other.path@.take(i as int));
        true
    }
}

/// A runtime value.
#[derive(Debug, Clone, PartialEq, Eq, Hash)]
pub enum Value {
    NumericLiteral(i64),
    Reference(Reference),
    Epsilon,
    Undefined,
}

/// The model of a `Value`.
pub enum Val {
    NumericLiteral(i64),
    Reference(Pointer),
    Epsilon,
    Undefined,
}

impl View for Value {
    type V = Val;

    open spec fn view(&self) -> Val {
        match self {
            Value::NumericLiteral(n) => Val::NumericLiteral(*n),
            Value::Reference(r) => Val::Reference(r@),
            Value::Epsilon => Val::Epsilon,
            Value::Undefined => Val::Undefined,
        }
    }
}

impl Replicate for Value {
    fn replicate(&self) -> (r: Value) {
        match self {
            Value::NumericLiteral(n) => Value::NumericLiteral(*n),
            Value::Reference(r) => Value::Reference(r.replicate()),
            Value::Epsilon => Value::Epsilon,
            Value::Undefined => Value::Undefined,
        }
    }
}

impl Val {
    /// How the value reads in a report.
    pub open spec fn text(self) -> Seq<char> {
        match self {
            Val::NumericLiteral(n) => signed_decimal(n as int),
            Val::Reference(p) => "ref "@ + p.text(),
            Val::Epsilon => "Epsilon"@,
            Val::Undefined => "Undefined"@,
        }
    }
}

impl Value {
    /// How the value reads in a report.
    pub fn to_string(&self) -> (s: String)
        ensures
            s@ == self@.text(),
    {
        match self {
            Value::NumericLiteral(n) => signed_decimal_text(*n),
            Value::Reference(r) => {
                let mut s = String::from_str("ref ");
                s.append(r.to_string().as_str());
                s
            },
            Value::Epsilon => String::from_str("Epsilon"),
            Value::Undefined => String::from_str("Undefined"),
        }
    }

    /// Whether two values have the same model.
    pub fn same(&self, other: &Value) -> (b: bool)
        ensures
            b == (self@ == other@),
    {
        match (self, other) {
            (Value::NumericLiteral(a), Value::NumericLiteral(b)) => *a == *b,
            (Value::Reference(a), Value::Reference(b)) => a.same(b),
            (Value::Epsilon, Value::Epsilon) => true,
            (Value::Undefined, Value::Undefined) => true,
            _ => false,
        }
    }
}

/// A place: a variable, or what a place points to. The type checker annotates the
/// variable of each place that a term reads with whether the read copies.
#[derive(Debug, PartialEq, Eq)]
pub enum LVal {
    Variable { name: String, copyable: Option<bool> },
    Deref { var: Box<LVal> },
}

/// The model of an `LVal`.
pub enum Place {
    Variable { name: Seq<char>, copyable: Option<bool> },
    Deref { var: Box<Place> },
}

impl Place {
    /// The variable at the bottom of the chain of dereferences.
    pub open spec fn name(self) -> Seq<char>
        decreases self,
    {
        match self {
            Place::Variable { name, .. } => name,
            Place::Deref { var } => var.name(),
        }
    }

    /// The annotation of the variable.
    pub open spec fn copyable(self) -> Option<bool>
        decreases self,
    {
        match self {
            Place::Variable { copyable, .. } => copyable,
            Place::Deref { var } => var.copyable(),
        }
    }

    /// Whether a read of the place copies, as the annotation says.
    pub open spec fn copies(self) -> Result<bool, Fault> {
        match self.copyable() {
            Some(c) => Ok(c),
            None => Err(Fault::NotAnnotated(self.name())),
        }
    }

    /// The place with its variable annotated `c`.
    pub open spec fn annotated(self, c: Option<bool>) -> Place
        decreases self,
    {
        match self {
            Place::Variable { name, .. } => Place::Variable { name, copyable: c },
            Place::Deref { var } => Place::Deref { var: Box::new(var.annotated(c)) },
        }
    }

    /// The place without its annotation. Types name the places they borrow
    /// in this form, so that two occurrences of one place are equal whatever
    /// the type checker has written on them.
    pub open spec fn erased(self) -> Place {
        self.annotated(None)
    }

    /// The bare variable `x`.
    pub open spec fn variable(x: Seq<char>) -> Place {
        Place::Variable { name: x, copyable: None }
    }

    /// The number of dereferences.
    pub open spec fn depth(self) -> nat
        decreases self,
    {
        match self {
            Place::Variable { .. } => 0,
            Place::Deref { var } => 1 + var.depth(),
        }
    }
}

impl LVal {
    /// The model of the place: the same chain of dereferences over the name
    /// as a sequence of characters.
    pub open spec fn model(&self) -> Place
        decreases self,
    {
        match self {
            LVal::Variable { name, copyable } => Place::Variable {
                name: name@,
                copyable: *copyable,
            },
            LVal::Deref { var } => Place::Deref { var: Box::new(var.model()) },
        }
    }
}

impl View for LVal {
    type V = Place;

    open spec fn view(&self) -> Place {
        self.model()
    }
}

impl Replicate for LVal {
    fn replicate(&self) -> (r: LVal)
        decreases self,
    {
        match self {
            LVal::Variable { name, copyable } => LVal::Variable {
                name: name.clone(),
                copyable: *copyable,
            },
            LVal::Deref { var } => LVal::Deref { var: Box::new(var.replicate()) },
        }
    }
}

impl Clone for LVal {
    fn clone(&self) -> (r: LVal)
        ensures
            r@ == self@,
    {
        self.replicate()
    }
}

impl LVal {
    /// The variable at the bottom of the chain of dereferences.
    pub fn get_name(&self) -> (r: String)
        ensures
            r@ == self@.name(),
        decreases self,
    {
        match self {
            LVal::Variable { name, .. } => name.clone(),
            LVal::Deref { var } => var.get_name(),
        }
    }

    /// Whether a read of the place copies, as the annotation says. Fails
    /// on a place that has no annotation yet.
    pub fn is_copyable(&self) -> (r: Result<bool, Failure>)
        ensures
            verdict(r) == self@.copies(),
        decreases self,
    {
        match self {
            LVal::Variable { name, copyable } => match copyable {
                Some(c) => Ok(*c),
                None => Err(Failure::NotAnnotated(name.clone())),
            },
            LVal::Deref { var } => var.is_copyable(),
        }
    }

    /// Annotates the variable.
    pub fn set_copyable(&mut self, copyable: bool)
        ensures
            final(self)@ == old(self)@.annotated(Some(copyable)),
        decreases *old(self),
    {
        match self {
            LVal::Variable { copyable: c, .. } => {
                *c = Some(copyable);
            },
            LVal::Deref { var } => {
                var.set_copyable(copyable);
            },
        }
    }

    /// A copy of the place with its variable annotated.
    pub fn with_copyable(&self, copyable: bool) -> (r: LVal)
        ensures
            r@ == self@.annotated(Some(copyable)),
        decreases self,
    {
        match self {
            LVal::Variable { name, .. } => LVal::Variable {
                name: name.clone(),
                copyable: Some(copyable),
            },
            LVal::Deref { var } => LVal::Deref { var: Box::new(var.with_copyable(copyable)) },
        }
    }

    /// Whether two places are the same but for their annotations.
    pub fn same_place(&self, other: &LVal) -> (b: bool)
        ensures
            b == (self@.erased() == other@.erased()),
        decreases self,
    {
        match (self, other) {
            (LVal::Variable { name: a, .. }, LVal::Variable { name: b, .. }) => *a == *b,
            (LVal::Deref { var: a }, LVal::Deref { var: b }) => a.same_place(b),
            _ => false,
        }
    }
}

/// The declaration of one argument of a function.
#[derive(Debug, Clone)]
pub struct Argument {
    pub name: String,
    pub ty: Type,
    pub mutable: bool,
    pub reference: bool,
}

/// The model of an `Argument`.
pub struct Param {
    pub name: Seq<char>,
    pub ty: Ty,
    pub mutable: bool,
    pub reference: bool,
}

impl View for Argument {
    type V = Param;

    open spec fn view(&self) -> Param {
        Param { name: self.name@, ty: self.ty@, mutable: self.mutable, reference: self.reference }
    }
}

impl Replicate for Argument {
    fn replicate(&self) -> (r: Argument) {
        Argument {
            name: self.name.clone(),
            ty: self.ty.replicate(),
            mutable: self.mutable,
            reference: self.reference,
        }
    }
}

/// A term of the language.
#[derive(Debug)]
pub enum Term {
    Variable(LVal),
    Value(Value),
    Box { term: Box<Term> },
    Ref { mutable: bool, var: LVal },
    Let { mutable: bool, variable: LVal, term: Box<Term> },
    Assign { variable: LVal, term: Box<Term> },
    FunctionCall { name: String, params: Vec<Term> },
    FunctionDeclaration { name: String, args: Vec<Argument>, body: Vec<Term>, ty: Option<Type> },
}

/// The model of a `Term`.
pub enum Expr {
    Variable(Place),
    Value(Val),
    Box { term: Box<Expr> },
    Ref { mutable: bool, var: Place },
    Let { mutable: bool, variable: Place, term: Box<Expr> },
    Assign { variable: Place, term: Box<Expr> },
    FunctionCall { name: Seq<char>, params: Seq<Expr> },
    FunctionDeclaration { name: Seq<char>, args: Seq<Param>, body: Seq<Expr>, ty: Option<Ty> },
}

/// The model of an optional type.
pub open spec fn option_view(ty: Option<Type>) -> Option<Ty> {
    match ty {
        Some(t) => Some(t@),
        None => None,
    }
}

impl Term {
    /// The model of the term: the same tree over the models of its parts.
    pub open spec fn model(&self) -> Expr
        decreases self,
    {
        match self {
            Term::Variable(l) => Expr::Variable(l@),
            Term::Value(v) => Expr::Value(v@),
            Term::Box { term } => Expr::Box { term: Box::new(term.model()) },
            Term::Ref { mutable, var } => Expr::Ref { mutable: *mutable, var: var@ },
            Term::Let { mutable, variable, term } => Expr::Let {
                mutable: *mutable,
                variable: variable@,
                term: Box::new(term.model()),
            },
            Term::Assign { variable, term } => Expr::Assign {
                variable: variable@,
                term: Box::new(term.model()),
            },
            Term::FunctionCall { name, params } => Expr::FunctionCall {
                name: name@,
                params: Seq::new(
                    params@.len(),
                    |i: int|
                        if 0 <= i < params@.len() {
                            params@[i].model()
                        } else {
                            Expr::Value(Val::Epsilon)
                        },
                ),
            },
            Term::FunctionDeclaration { name, args, body, ty } => Expr::FunctionDeclaration {
                name: name@,
                args: views(args@),
                body: Seq::new(
                    body@.len(),
                    |i: int|
                        if 0 <= i < body@.len() {
                            body@[i].model()
                        } else {
                            Expr::Value(Val::Epsilon)
                        },
                ),
                ty: option_view(*ty),
            },
        }
    }

    /// The model of a call or a declaration in terms of the models of its
    /// parts.
    pub proof fn lemma_model(&self)
        ensures
            match self {
                Term::FunctionCall { name, params } => self@ == (Expr::FunctionCall {
                    name: name@,
                    params: views(params@),
                }),
                Term::FunctionDeclaration { name, args, body, ty } => self@ == (
                Expr::FunctionDeclaration {
                    name: name@,
                    args: views(args@),
                    body: views(body@),
                    ty: option_view(*ty),
                }),
                _ => true,
            },
    {
        match self {
            Term::FunctionCall { name, params } => {
                assert(self@->FunctionCall_params =~= views(params@));
            },
            Term::FunctionDeclaration { name, args, body, ty } => {
                assert(self@->FunctionDeclaration_body =~= views(body@));
            },
            _ => {},
        }
    }
}

impl View for Term {
    type V = Expr;

    open spec fn view(&self) -> Expr {
        self.model()
    }
}

/// A copy of a sequence of arguments.
pub fn replicate_arguments(args: &Vec<Argument>) -> (r: Vec<Argument>)
    ensures
        views(r@) == views(args@),
{
    let mut out: Vec<Argument> = Vec::new();
    let mut i: usize = 0;
    while i < args.len()
        invariant
            i <= args@.len(),
            out@.len() == i,
            forall|j: int| 0 <= j < i ==> (#[trigger] out@[j])@ == args@[j]@,
        decreases args@.len() - i,
    {
        out.push(args[i].replicate());
        i = i + 1;
    }
    assert(views(out@) =~= views(args@));
    out
}

/// A copy of a sequence of terms.
pub fn replicate_terms(terms: &Vec<Term>) -> (r: Vec<Term>)
    ensures
        views(r@) == views(terms@),
    decreases terms,
{
    let mut out: Vec<Term> = Vec::new();
    let mut i: usize = 0;
    while i < terms.len()
        invariant
            i <= terms@.len(),
            out@.len() == i,
            forall|j: int| 0 <= j < i ==> (#[trigger] out@[j])@ == terms@[j]@,
        decreases terms@.len() - i,
    {
        out.push(terms[i].replicate());
        i = i + 1;
    }
    assert(views(out@) =~= views(terms@));
    out
}

impl Replicate for Term {
    fn replicate(&self) -> (r: Term)
        decreases self,
    {
        proof {
            self.lemma_model();
        }
        let r = match self {
            Term::Variable(l) => Term::Variable(l.replicate()),
            Term::Value(v) => Term::Value(v.replicate()),
            Term::Box { term } => Term::Box { term: Box::new(term.replicate()) },
            Term::Ref { mutable, var } => Term::Ref { mutable: *mutable, var: var.replicate() },
            Term::Let { mutable, variable, term } => Term::Let {
                mutable: *mutable,
                variable: variable.replicate(),
                term: Box::new(term.replicate()),
            },
            Term::Assign { variable, term } => Term::Assign {
                variable: variable.replicate(),
                term: Box::new(term.replicate()),
            },
            Term::FunctionCall { name, params } => Term::FunctionCall {
                name: name.clone(),
                params: replicate_terms(params),
            },
            Term::FunctionDeclaration { name, args, body, ty } => Term::FunctionDeclaration {
                name: name.clone(),
                args: replicate_arguments(args),
                body: replicate_terms(body),
                ty: match ty {
                    Some(t) => Some(t.replicate()),
                    None => None,
                },
            },
        };
        proof {
            r.lemma_model();
        }
        r
    }
}

impl Clone for Term {
    fn clone(&self) -> (r: Term)
        ensures
            r@ == self@,
    {
        self.replicate()
    }
}

/// A program: a sequence of terms, run one after the other.
#[derive(Debug)]
pub struct Program {
    pub terms: Vec<Term>,
}

impl View for Program {
    type V = Seq<Expr>;

    open spec fn view(&self) -> Seq<Expr> {
        views(self.terms@)
    }
}

/// A piece of syntax: it can be type-checked and evaluated.
pub trait AST: Evaluate + TypeCheck {

}

impl AST for Value {

}

impl AST for LVal {

}

impl AST for Term {

}

impl AST for Program {

}

} // verus!
