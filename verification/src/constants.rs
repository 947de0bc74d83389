//! The errors that the type checker, the evaluator and the consistency checks
//! report.
use crate::ast::{Expr, Term};
use crate::text::{decimal, decimal_text};
use crate::typing::{Ty, Type};
use vstd::prelude::*;

verus! {

/// What the type checker reports of a program that breaks a rule of the
/// language.
#[derive(Debug)]
pub enum TypeError {
    FunctionCallIncompatableArgumentCount(usize, usize),
    FunctionCallIncompatableArgumentType(Type, Type),
    FunctionNotDefined(String),
    FunctionDeclDupArg(String),
    /// The declared return type, then the type of the body.
    FunctionUnexpectedReturn(Type, Type),
    CopyNotReadable(String),
    MoveNotWritable(String),
    MutrefAlreadyBorrowedImmut(String),
    MutrefImmut(String),
    RefAlreadyBorrowedMut(String),
    LetAlreadyDefined(String),
    LetExprNoReturn(Term),
    AssignBorrowed(String),
    IncompatibleTypes(Type, Type),
    NotWithinScope(String),
    TypeMoved(Type),
}

/// The model of a `TypeError`.
pub enum TypeFault {
    FunctionCallIncompatableArgumentCount(usize, usize),
    FunctionCallIncompatableArgumentType(Ty, Ty),
    FunctionNotDefined(Seq<char>),
    FunctionDeclDupArg(Seq<char>),
    FunctionUnexpectedReturn(Ty, Ty),
    CopyNotReadable(Seq<char>),
    MoveNotWritable(Seq<char>),
    MutrefAlreadyBorrowedImmut(Seq<char>),
    MutrefImmut(Seq<char>),
    RefAlreadyBorrowedMut(Seq<char>),
    LetAlreadyDefined(Seq<char>),
    LetExprNoReturn(Expr),
    AssignBorrowed(Seq<char>),
    IncompatibleTypes(Ty, Ty),
    NotWithinScope(Seq<char>),
    TypeMoved(Ty),
}

impl View for TypeError {
    type V = TypeFault;

    open spec fn view(&self) -> TypeFault {
        match self {
            TypeError::FunctionCallIncompatableArgumentCount(a, b) =>
                TypeFault::FunctionCallIncompatableArgumentCount(*a, *b),
            TypeError::FunctionCallIncompatableArgumentType(a, b) =>
                TypeFault::FunctionCallIncompatableArgumentType(a@, b@),
            TypeError::FunctionNotDefined(s) => TypeFault::FunctionNotDefined(s@),
            TypeError::FunctionDeclDupArg(s) => TypeFault::FunctionDeclDupArg(s@),
            TypeError::FunctionUnexpectedReturn(a, b) => TypeFault::FunctionUnexpectedReturn(
                a@,
                b@,
            ),
            TypeError::CopyNotReadable(s) => TypeFault::CopyNotReadable(s@),
            TypeError::MoveNotWritable(s) => TypeFault::MoveNotWritable(s@),
            TypeError::MutrefAlreadyBorrowedImmut(s) => TypeFault::MutrefAlreadyBorrowedImmut(s@),
            TypeError::MutrefImmut(s) => TypeFault::MutrefImmut(s@),
            TypeError::RefAlreadyBorrowedMut(s) => TypeFault::RefAlreadyBorrowedMut(s@),
            TypeError::LetAlreadyDefined(s) => TypeFault::LetAlreadyDefined(s@),
            TypeError::LetExprNoReturn(t) => TypeFault::LetExprNoReturn(t@),
            TypeError::AssignBorrowed(s) => TypeFault::AssignBorrowed(s@),
            TypeError::IncompatibleTypes(a, b) => TypeFault::IncompatibleTypes(a@, b@),
            TypeError::NotWithinScope(s) => TypeFault::NotWithinScope(s@),
            TypeError::TypeMoved(t) => TypeFault::TypeMoved(t@),
        }
    }
}

/// Every way in which a step of the interpreter can fail: a type error, or a
/// condition that a well-typed program never meets.
#[derive(Debug)]
pub enum Failure {
    /// The program breaks a typing rule.
    Type(TypeError),
    /// The type environment has no binding for the name.
    Unbound(String),
    /// The name is dereferenced, and its type is neither a reference nor a box.
    NotAReference(String),
    /// The value has no type in the surface language.
    InvalidValue,
    /// A write goes through a shared reference to the name.
    SharedTarget(String),
    /// The place is deeper than the type of the name it starts from.
    Shape(String),
    /// The borrows that start at the name lead back to themselves.
    BorrowCycle(String),
    /// Scopes are nested deeper than a lifetime can count.
    TooDeep,
    /// The top frame has no function of the name.
    UnknownFunction(String),
    /// The top frame has no location for the name.
    UnknownVariable(String),
    /// The name is dereferenced, and its cell does not hold a reference.
    NotAPointer(String),
    /// The store has no cell at the address.
    MissingCell(usize),
    /// The variable is read before the type checker has annotated it.
    NotAnnotated(String),
    /// The store has handed out every address.
    StoreFull,
    /// The stack has no frame where one is needed.
    NoFrame,
    /// The references that start at the address lead back to themselves.
    Cyclic(usize),
    /// The word is no token of the language.
    InvalidToken(String),
    /// The token at the position cannot stand there; the position is the
    /// number of tokens where they end too early.
    Syntax(usize),
    /// Two cells of the store hold the same value, numbers apart, or the
    /// store holds a value that the term boxes, assigns or declares.
    InvalidState,
    /// The type environment does not describe the state.
    UnsafeAbstraction,
    /// The type environment does not describe the state after the step.
    UnsafeAbstractionAfter,
    /// The value that a term evaluated to does not have the term's type.
    InvalidType,
}

/// The model of a `Failure`.
pub enum Fault {
    Type(TypeFault),
    Unbound(Seq<char>),
    NotAReference(Seq<char>),
    InvalidValue,
    SharedTarget(Seq<char>),
    Shape(Seq<char>),
    BorrowCycle(Seq<char>),
    TooDeep,
    UnknownFunction(Seq<char>),
    UnknownVariable(Seq<char>),
    NotAPointer(Seq<char>),
    MissingCell(usize),
    NotAnnotated(Seq<char>),
    StoreFull,
    NoFrame,
    Cyclic(usize),
    InvalidToken(Seq<char>),
    Syntax(usize),
    InvalidState,
    UnsafeAbstraction,
    UnsafeAbstractionAfter,
    InvalidType,
}

impl View for Failure {
    type V = Fault;

    open spec fn view(&self) -> Fault {
        match self {
            Failure::Type(e) => Fault::Type(e@),
            Failure::Unbound(s) => Fault::Unbound(s@),
            Failure::NotAReference(s) => Fault::NotAReference(s@),
            Failure::InvalidValue => Fault::InvalidValue,
            Failure::SharedTarget(s) => Fault::SharedTarget(s@),
            Failure::Shape(s) => Fault::Shape(s@),
            Failure::BorrowCycle(s) => Fault::BorrowCycle(s@),
            Failure::TooDeep => Fault::TooDeep,
            Failure::UnknownFunction(s) => Fault::UnknownFunction(s@),
            Failure::UnknownVariable(s) => Fault::UnknownVariable(s@),
            Failure::NotAPointer(s) => Fault::NotAPointer(s@),
            Failure::MissingCell(a) => Fault::MissingCell(*a),
            Failure::NotAnnotated(s) => Fault::NotAnnotated(s@),
            Failure::StoreFull => Fault::StoreFull,
            Failure::NoFrame => Fault::NoFrame,
            Failure::Cyclic(a) => Fault::Cyclic(*a),
            Failure::InvalidToken(s) => Fault::InvalidToken(s@),
            Failure::Syntax(p) => Fault::Syntax(*p),
            Failure::InvalidState => Fault::InvalidState,
            Failure::UnsafeAbstraction => Fault::UnsafeAbstraction,
            Failure::UnsafeAbstractionAfter => Fault::UnsafeAbstractionAfter,
            Failure::InvalidType => Fault::InvalidType,
        }
    }
}

/// The model of a result: the model of what it holds.
pub open spec fn outcome<T: View, E: View>(r: Result<T, E>) -> Result<T::V, E::V> {
    match r {
        Ok(v) => Ok(v@),
        Err(e) => Err(e@),
    }
}

/// The model of a result that holds a plain value.
pub open spec fn verdict<T, E: View>(r: Result<T, E>) -> Result<T, E::V> {
    match r {
        Ok(v) => Ok(v),
        Err(e) => Err(e@),
    }
}

/// `before`, then `x`, then `after`.
pub open spec fn framed(before: Seq<char>, x: Seq<char>, after: Seq<char>) -> Seq<char> {
    before + x + after
}

/// `before`, then `x`, then `between`, then `y`.
pub open spec fn paired(before: Seq<char>, x: Seq<char>, between: Seq<char>, y: Seq<char>) -> Seq<
    char,
> {
    before + x + between + y
}

/// The string `before`, then `x`, then `after`.
pub fn frame(before: &str, x: &str, after: &str) -> (s: String)
    ensures
        s@ == framed(before@, x@, after@),
{
    let mut s = String::from_str(before);
    s.append(x);
    s.append(after);
    s
}

/// The string `before`, then `x`, then `between`, then `y`.
pub fn pair(before: &str, x: &str, between: &str, y: &str) -> (s: String)
    ensures
        s@ == paired(before@, x@, between@, y@),
{
    let mut s = String::from_str(before);
    s.append(x);
    s.append(between);
    s.append(y);
    s
}

impl TypeFault {
    /// The message of the error.
    pub open spec fn text(self) -> Seq<char> {
        match self {
            TypeFault::FunctionCallIncompatableArgumentCount(a, b) => paired(
                "Type error: Incompatible argument count: expected "@,
                decimal(a as nat),
                ", got "@,
                decimal(b as nat),
            ),
            TypeFault::FunctionCallIncompatableArgumentType(a, b) => paired(
                "Type error: Incompatible argument type: expected "@,
                a.text(),
                ", got "@,
                b.text(),
            ),
            TypeFault::FunctionNotDefined(x) => framed(
                "Type error: Function not defined: "@,
                x,
                "()"@,
            ),
            TypeFault::FunctionDeclDupArg(x) => framed(
                "Type error: Duplicate argument in function declaration: "@,
                x,
                ""@,
            ),
            TypeFault::FunctionUnexpectedReturn(a, b) => paired(
                "Type error: Unexpected return type: expected "@,
                a.text(),
                ", got "@,
                b.text(),
            ),
            TypeFault::CopyNotReadable(x) => framed(
                "Type error: Cannot copy variable that is mutually borrowed: "@,
                x,
                ""@,
            ),
            TypeFault::MoveNotWritable(x) => framed(
                "Type error: Cannot move variable that is borrowd: "@,
                x,
                ""@,
            ),
            TypeFault::MutrefAlreadyBorrowedImmut(x) => framed(
                "Type error: Cannot create a mutable reference to "@,
                x,
                " as it's already borrowed immutably"@,
            ),
            TypeFault::MutrefImmut(x) => framed(
                "Type error: Mutable reference cannot be created from immutable reference: "@,
                x,
                ""@,
            ),
            TypeFault::RefAlreadyBorrowedMut(x) => framed(
                "Type error: Immutable reference already borrowed mutably: "@,
                x,
                ""@,
            ),
            TypeFault::LetAlreadyDefined(x) => framed(
                "Type error: Variable already defined: "@,
                x,
                ""@,
            ),
            TypeFault::LetExprNoReturn(_) => "Type error: Let expression does not return a value"@,
            TypeFault::AssignBorrowed(x) => framed(
                "Type error: Cannot assign to borrowed reference: "@,
                x,
                ""@,
            ),
            TypeFault::IncompatibleTypes(a, b) => paired(
                "Type error: Incompatible types: "@,
                a.text(),
                " and "@,
                b.text(),
            ),
            TypeFault::NotWithinScope(x) => framed(
                "Type error: Type is not within scope: "@,
                x,
                ""@,
            ),
            TypeFault::TypeMoved(t) => framed(
                "Type error: Type of "@,
                t.text(),
                " is undefined, indicating that it was moved"@,
            ),
        }
    }
}

impl TypeError {
    /// The message of the error.
    pub fn to_string(&self) -> (s: String)
        ensures
            s@ == self@.text(),
    {
        match self {
            TypeError::FunctionCallIncompatableArgumentCount(a, b) => pair(
                "Type error: Incompatible argument count: expected ",
                decimal_text(*a as u64).as_str(),
                ", got ",
                decimal_text(*b as u64).as_str(),
            ),
            TypeError::FunctionCallIncompatableArgumentType(a, b) => pair(
                "Type error: Incompatible argument type: expected ",
                a.to_string().as_str(),
                ", got ",
                b.to_string().as_str(),
            ),
            TypeError::FunctionNotDefined(x) => frame(
                "Type error: Function not defined: ",
                x.as_str(),
                "()",
            ),
            TypeError::FunctionDeclDupArg(x) => frame(
                "Type error: Duplicate argument in function declaration: ",
                x.as_str(),
                "",
            ),
            TypeError::FunctionUnexpectedReturn(a, b) => pair(
                "Type error: Unexpected return type: expected ",
                a.to_string().as_str(),
                ", got ",
                b.to_string().as_str(),
            ),
            TypeError::CopyNotReadable(x) => frame(
                "Type error: Cannot copy variable that is mutually borrowed: ",
                x.as_str(),
                "",
            ),
            TypeError::MoveNotWritable(x) => frame(
                "Type error: Cannot move variable that is borrowd: ",
                x.as_str(),
                "",
            ),
            TypeError::MutrefAlreadyBorrowedImmut(x) => frame(
                "Type error: Cannot create a mutable reference to ",
                x.as_str(),
                " as it's already borrowed immutably",
            ),
            TypeError::MutrefImmut(x) => frame(
                "Type error: Mutable reference cannot be created from immutable reference: ",
                x.as_str(),
                "",
            ),
            TypeError::RefAlreadyBorrowedMut(x) => frame(
                "Type error: Immutable reference already borrowed mutably: ",
                x.as_str(),
                "",
            ),
            TypeError::LetAlreadyDefined(x) => frame(
                "Type error: Variable already defined: ",
                x.as_str(),
                "",
            ),
            TypeError::LetExprNoReturn(_) => String::from_str(
                "Type error: Let expression does not return a value",
            ),
            TypeError::AssignBorrowed(x) => frame(
                "Type error: Cannot assign to borrowed reference: ",
                x.as_str(),
                "",
            ),
            TypeError::IncompatibleTypes(a, b) => pair(
                "Type error: Incompatible types: ",
                a.to_string().as_str(),
                " and ",
                b.to_string().as_str(),
            ),
            TypeError::NotWithinScope(x) => frame(
                "Type error: Type is not within scope: ",
                x.as_str(),
                "",
            ),
            TypeError::TypeMoved(t) => frame(
                "Type error: Type of ",
                t.to_string().as_str(),
                " is undefined, indicating that it was moved",
            ),
        }
    }
}

impl Fault {
    /// The message of the failure.
    pub open spec fn text(self) -> Seq<char> {
        match self {
            Fault::Type(e) => e.text(),
            Fault::Unbound(x) => framed("Variable "@, x, " not found in type environment"@),
            Fault::NotAReference(x) => framed(
                "Error type-checking dereference: variable "@,
                x,
                " is not a reference"@,
            ),
            Fault::InvalidValue => "Invalid value"@,
            Fault::SharedTarget(x) => framed(
                "Error updating reference: variable "@,
                x,
                " is not mutable"@,
            ),
            Fault::Shape(x) => framed("Place is deeper than the type of "@, x, ""@),
            Fault::BorrowCycle(x) => framed("Borrows of "@, x, " form a cycle"@),
            Fault::TooDeep => "Scopes are nested too deep"@,
            Fault::UnknownFunction(x) => framed("Function: "@, x, " not found"@),
            Fault::UnknownVariable(x) => framed("Variable: "@, x, " not found"@),
            Fault::NotAPointer(x) => framed(
                "Error dereferencing variable: "@,
                x,
                " is not a reference"@,
            ),
            Fault::MissingCell(a) => framed("Store has no cell at l-"@, decimal(a as nat), ""@),
            Fault::NotAnnotated(x) => framed(
                "Tried to access copyable field of variable "@,
                x,
                " before it was set"@,
            ),
            Fault::StoreFull => "Store is full"@,
            Fault::NoFrame => "Stack has no frame"@,
            Fault::Cyclic(a) => framed("References at l-"@, decimal(a as nat), " form a cycle"@),
            Fault::InvalidToken(w) => framed("Invalid token: "@, w, ""@),
            Fault::Syntax(p) => framed("Unexpected token at position "@, decimal(p as nat), ""@),
            Fault::InvalidState => "Invalid state"@,
            Fault::UnsafeAbstraction =>
                "Type enviroment is not a safe abstraction of current state"@,
            Fault::UnsafeAbstractionAfter =>
                "Type enviroment is not a safe abstraction of current state after preservation"@,
            Fault::InvalidType => "Invalid type"@,
        }
    }
}

impl Failure {
    /// The message of the failure.
    pub fn to_string(&self) -> (s: String)
        ensures
            s@ == self@.text(),
    {
        match self {
            Failure::Type(e) => e.to_string(),
            Failure::Unbound(x) => frame("Variable ", x.as_str(), " not found in type environment"),
            Failure::NotAReference(x) => frame(
                "Error type-checking dereference: variable ",
                x.as_str(),
                " is not a reference",
            ),
            Failure::InvalidValue => String::from_str("Invalid value"),
            Failure::SharedTarget(x) => frame(
                "Error updating reference: variable ",
                x.as_str(),
                " is not mutable",
            ),
            Failure::Shape(x) => frame("Place is deeper than the type of ", x.as_str(), ""),
            Failure::BorrowCycle(x) => frame("Borrows of ", x.as_str(), " form a cycle"),
            Failure::TooDeep => String::from_str("Scopes are nested too deep"),
            Failure::UnknownFunction(x) => frame("Function: ", x.as_str(), " not found"),
            Failure::UnknownVariable(x) => frame("Variable: ", x.as_str(), " not found"),
            Failure::NotAPointer(x) => frame(
                "Error dereferencing variable: ",
                x.as_str(),
                " is not a reference",
            ),
            Failure::MissingCell(a) => frame(
                "Store has no cell at l-",
                decimal_text(*a as u64).as_str(),
                "",
            ),
            Failure::NotAnnotated(x) => frame(
                "Tried to access copyable field of variable ",
                x.as_str(),
                " before it was set",
            ),
            Failure::StoreFull => String::from_str("Store is full"),
            Failure::NoFrame => String::from_str("Stack has no frame"),
            Failure::Cyclic(a) => frame(
                "References at l-",
                decimal_text(*a as u64).as_str(),
                " form a cycle",
            ),
            Failure::InvalidToken(w) => frame("Invalid token: ", w.as_str(), ""),
            Failure::Syntax(p) => frame(
                "Unexpected token at position ",
                decimal_text(*p as u64).as_str(),
                "",
            ),
            Failure::InvalidState => String::from_str("Invalid state"),
            Failure::UnsafeAbstraction => String::from_str(
                "Type enviroment is not a safe abstraction of current state",
            ),
            Failure::UnsafeAbstractionAfter => String::from_str(
                "Type enviroment is not a safe abstraction of current state after preservation",
            ),
            Failure::InvalidType => String::from_str("Invalid type"),
        }
    }
}

} // verus!
