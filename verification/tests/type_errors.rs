use mu_interp::ast::{LVal, Program, Term, Value};
use mu_interp::constants::{Failure, TypeError};
use mu_interp::lexer::Lexer;
use mu_interp::parser::Parser;
use mu_interp::typecheck::TypeCheck;
use mu_interp::typing::{Type, TypeEnviroment};

fn parse(text: &str) -> Program {
    let mut lexer = Lexer::new(text);
    let tokens = lexer.tokenize().expect("the text has tokens only");
    Parser::new(tokens).parse().expect("the tokens are a program")
}

fn check(text: &str) -> Result<(TypeEnviroment, Type), Failure> {
    parse(text).type_check(TypeEnviroment::new(), 0)
}

fn type_error(text: &str) -> TypeError {
    match check(text) {
        Err(Failure::Type(e)) => e,
        other => panic!("{:?}", other),
    }
}

fn var(name: &str) -> LVal {
    LVal::Variable { name: name.to_string(), copyable: None }
}

fn boxed(t: Type) -> Type {
    Type::Box(Box::new(t))
}

#[test]
fn function_incorrect_arg_count() {
    let e = type_error("fn f(x: int, y: int) { x } f(1)");
    assert!(matches!(e, TypeError::FunctionCallIncompatableArgumentCount(2, 1)));
    assert_eq!(
        e.to_string(),
        "Type error: Incompatible argument count: expected 2, got 1"
    );
}

#[test]
fn function_incorrect_arg_type() {
    let e = type_error("fn f(x: int) { x } f(box 1)");
    match &e {
        TypeError::FunctionCallIncompatableArgumentType(expected, got) => {
            assert_eq!(*expected, Type::Numeric);
            assert_eq!(*got, boxed(Type::Numeric));
        }
        other => panic!("{:?}", other),
    }
    assert_eq!(
        e.to_string(),
        "Type error: Incompatible argument type: expected Numeric, got Box Numeric"
    );
}

#[test]
fn function_not_defined() {
    let e = type_error("f()");
    assert!(matches!(&e, TypeError::FunctionNotDefined(name) if name == "f"));
    assert_eq!(e.to_string(), "Type error: Function not defined: f()");
    let e = type_error("let mut x = 0 x()");
    assert!(matches!(&e, TypeError::FunctionNotDefined(name) if name == "x"));
}

#[test]
fn function_duplicate_argument() {
    let e = type_error("fn f(x: int, y: int, x: box int) { y }");
    assert!(matches!(&e, TypeError::FunctionDeclDupArg(name) if name == "x"));
    assert_eq!(
        e.to_string(),
        "Type error: Duplicate argument in function declaration: x"
    );
}

#[test]
fn function_incorrect_return_type() {
    let e = type_error("fn f(): box int { 1 }");
    match &e {
        TypeError::FunctionUnexpectedReturn(declared, found) => {
            assert_eq!(*declared, boxed(Type::Numeric));
            assert_eq!(*found, Type::Numeric);
        }
        other => panic!("{:?}", other),
    }
    assert_eq!(
        e.to_string(),
        "Type error: Unexpected return type: expected Box Numeric, got Numeric"
    );
}

#[test]
fn copy_of_mutably_borrowed_variable() {
    let e = type_error("let mut x = 0 let mut y = mut ref x let mut z = x");
    assert!(matches!(&e, TypeError::CopyNotReadable(name) if name == "x"));
    assert_eq!(
        e.to_string(),
        "Type error: Cannot copy variable that is mutually borrowed: x"
    );
}

#[test]
fn move_of_borrowed_variable() {
    let e = type_error("let mut x = box 0 let mut y = ref x let mut z = x");
    assert!(matches!(&e, TypeError::MoveNotWritable(name) if name == "x"));
    assert_eq!(e.to_string(), "Type error: Cannot move variable that is borrowd: x");
}

#[test]
fn mut_after_immut() {
    let e = type_error("let mut x = 0 let mut y = ref x let mut z = mut ref x");
    assert!(matches!(&e, TypeError::MutrefAlreadyBorrowedImmut(name) if name == "x"));
    assert_eq!(
        e.to_string(),
        "Type error: Cannot create a mutable reference to x as it's already borrowed immutably"
    );
}

#[test]
fn mut_from_immut() {
    let e = type_error("let mut x = 0 let mut y = ref x let mut z = mut ref y");
    assert!(matches!(&e, TypeError::MutrefImmut(name) if name == "y"));
    assert_eq!(
        e.to_string(),
        "Type error: Mutable reference cannot be created from immutable reference: y"
    );
}

#[test]
fn mutable_borrow_of_what_a_reference_borrows() {
    let (gamma, _) = check("let mut x = 0 let mut y = ref x let mut z = mut ref *y")
        .expect("only a variable that holds a shared reference is immutable");
    let z = gamma.get(&"z".to_string()).expect("z is bound");
    assert_eq!(
        z.value,
        Type::Reference { var: LVal::Deref { var: Box::new(var("y")) }, mutable: true }
    );
}

#[test]
fn two_mutable_borrows_of_what_a_box_holds() {
    let (gamma, _) = check("let mut a = box 0 let mut p = mut ref *a let mut q = mut ref *a")
        .expect("a borrow of what a box holds is no borrow of the variable");
    let held = Type::Reference { var: LVal::Deref { var: Box::new(var("a")) }, mutable: true };
    assert_eq!(gamma.get(&"p".to_string()).expect("p is bound").value, held);
    assert_eq!(gamma.get(&"q".to_string()).expect("q is bound").value, held);
}

#[test]
fn borrows_of_unbound_names() {
    let (gamma, _) = check("let mut r = ref q").expect("a variable is its own root");
    let r = gamma.get(&"r".to_string()).expect("r is bound");
    assert_eq!(r.value, Type::Reference { var: var("q"), mutable: false });
    assert!(matches!(check("let mut r = mut ref q"), Err(Failure::Unbound(n)) if n == "q"));
    assert!(matches!(check("let mut r = ref *q"), Err(Failure::Unbound(n)) if n == "q"));
}

#[test]
fn immut_after_mut() {
    let e = type_error("let mut x = 0 let mut y = mut ref x let mut z = ref x");
    assert!(matches!(&e, TypeError::RefAlreadyBorrowedMut(name) if name == "x"));
    assert_eq!(
        e.to_string(),
        "Type error: Immutable reference already borrowed mutably: x"
    );
}

#[test]
fn let_already_defined() {
    let e = type_error("let mut x = 0 let mut x = 1");
    assert!(matches!(&e, TypeError::LetAlreadyDefined(name) if name == "x"));
    assert_eq!(e.to_string(), "Type error: Variable already defined: x");
}

#[test]
fn let_of_a_statement() {
    let e = type_error("let mut x = 0 let mut y = x = 1");
    match &e {
        TypeError::LetExprNoReturn(Term::Assign { variable, term }) => {
            assert_eq!(*variable, var("x"));
            assert!(matches!(**term, Term::Value(Value::NumericLiteral(1))));
        }
        other => panic!("{:?}", other),
    }
    assert_eq!(e.to_string(), "Type error: Let expression does not return a value");
}

#[test]
fn assign_borrowed() {
    let e = type_error("let mut x = 0 let mut y = ref x x = 1");
    assert!(matches!(&e, TypeError::AssignBorrowed(name) if name == "x"));
    assert_eq!(e.to_string(), "Type error: Cannot assign to borrowed reference: x");
}

#[test]
fn assign_mut_borrowed() {
    let e = type_error("let mut x = 0 let mut y = mut ref x x = 1");
    assert!(matches!(&e, TypeError::AssignBorrowed(name) if name == "x"));
}

#[test]
fn bad_typing() {
    let e = type_error("let mut x = box 0 let mut z = 1 x = ref z");
    match &e {
        TypeError::IncompatibleTypes(place, value) => {
            assert_eq!(*place, boxed(Type::Numeric));
            assert_eq!(*value, Type::Reference { var: var("z"), mutable: false });
        }
        other => panic!("{:?}", other),
    }
    assert_eq!(
        e.to_string(),
        "Type error: Incompatible types: Box Numeric and Ref z"
    );
}

#[test]
fn not_within_scope() {
    let mut gamma = TypeEnviroment::new();
    gamma.insert("a".to_string(), Type::Numeric, 3);
    gamma.insert("b".to_string(), Type::Numeric, 0);
    gamma.insert("r".to_string(), Type::Reference { var: var("b"), mutable: false }, 0);
    let mut term = Term::Assign {
        variable: var("r"),
        term: Box::new(Term::Ref { mutable: false, var: var("a") }),
    };
    let e = match term.type_check(gamma, 0) {
        Err(Failure::Type(e)) => e,
        other => panic!("{:?}", other),
    };
    assert!(matches!(&e, TypeError::NotWithinScope(t) if t == "Ref a"));
    assert_eq!(e.to_string(), "Type error: Type is not within scope: Ref a");
}

#[test]
fn type_moved() {
    let e = type_error("let mut x = box 5 let mut y = x let mut z = x");
    assert!(matches!(&e, TypeError::TypeMoved(t) if *t == boxed(Type::Numeric)));
    assert_eq!(
        e.to_string(),
        "Type error: Type of Box Numeric is undefined, indicating that it was moved"
    );
}

#[test]
fn second_move_of_a_deeper_place_is_a_copy() {
    let checked = check("let mut x = box box box 1 let mut y = **x let mut z = **x");
    let (gamma, _) = checked.expect("the second read finds an undefined type, which copies");
    let z = gamma.get_partial(&"z".to_string()).expect("z is bound");
    assert_eq!(z.value, Type::Undefined(Box::new(boxed(Type::Numeric))));
}

#[test]
fn the_type_checker_annotates_reads() {
    let mut program = parse("let mut x = 0 let mut b = box 1 let mut y = x let mut c = b");
    program.type_check(TypeEnviroment::new(), 0).expect("the program checks");
    let annotation = |term: &Term| match term {
        Term::Let { term, .. } => match &**term {
            Term::Variable(lv) => lv.is_copyable().ok(),
            _ => None,
        },
        _ => None,
    };
    assert_eq!(annotation(&program.terms[2]), Some(true));
    assert_eq!(annotation(&program.terms[3]), Some(false));
    assert!(matches!(
        LVal::Deref { var: Box::new(var("x")) }.is_copyable(),
        Err(Failure::NotAnnotated(name)) if name == "x"
    ));
    assert_eq!(
        Failure::NotAnnotated("x".to_string()).to_string(),
        "Tried to access copyable field of variable x before it was set"
    );
}

#[test]
fn valid_checks_give_the_environment() {
    let (gamma, last) = check("let mut x = 0 let mut y = mut ref x fn f(a: int, ref b: box int): int { a }")
        .expect("the program checks");
    assert_eq!(last, Type::Epsilon);
    assert_eq!(gamma.dom(), vec!["x".to_string(), "y".to_string()]);
    let y = gamma.get(&"y".to_string()).expect("y is bound");
    assert_eq!(y.value, Type::Reference { var: var("x"), mutable: true });
    assert_eq!(y.lifetime, 0);
    let f = gamma.get(&"f".to_string()).expect("f is bound");
    assert_eq!(
        f.value,
        Type::Function {
            args: vec![Type::Numeric, boxed(Type::Numeric)],
            ret: Some(Box::new(Type::Numeric)),
        }
    );
    assert_eq!(f.value.to_string(), "Function (Numeric, Box Numeric, ) -> Numeric");
}
