use mu_interp::ast::{LVal, Program, Term, Value};
use mu_interp::constants::Failure;
use mu_interp::interpreter::Interpreter;
use mu_interp::lexer::Lexer;
use mu_interp::parser::Parser;
use mu_interp::properties::{safe_abstraction, valid_type};
use mu_interp::reduction::Evaluate;
use mu_interp::typecheck::TypeCheck;
use mu_interp::typing::{contains, Type, TypeEnviroment};

fn parse(text: &str) -> Program {
    let mut lexer = Lexer::new(text);
    let tokens = lexer.tokenize().expect("the text has tokens only");
    Parser::new(tokens).parse().expect("the tokens are a program")
}

fn var(name: &str) -> LVal {
    LVal::Variable { name: name.to_string(), copyable: None }
}

fn borrow_of(name: &str, mutable: bool) -> Type {
    Type::Reference { var: var(name), mutable }
}

fn bindings(gamma: &TypeEnviroment) -> Vec<(String, Type)> {
    gamma.gamma.entries.iter().map(|(k, slot)| (k.clone(), slot.value.clone())).collect()
}

fn exclusive(gamma: &TypeEnviroment) -> bool {
    let all = bindings(gamma);
    all.iter().enumerate().all(|(i, (_, holder))| {
        all.iter().all(|(x, _)| {
            !contains(holder.clone(), borrow_of(x, true))
                || all.iter().enumerate().all(|(j, (_, other))| {
                    i == j
                        || (!contains(other.clone(), borrow_of(x, true))
                            && !contains(other.clone(), borrow_of(x, false)))
                })
        })
    })
}

#[test]
fn mutable_borrows_stay_exclusive() {
    let programs = [
        "let mut x = 0 let mut y = mut ref x let mut z = box y",
        "let mut x = 0 let mut a = ref x let mut b = ref x let mut c = box b",
        "let mut x = box 1 let mut y = 2 let mut r = mut ref x let mut s = mut ref y
         let mut t = r r = mut ref y",
        "let mut x = 0 let mut y = 1 let mut r = mut ref x r = mut ref y let mut q = mut ref x",
    ];
    let expected = [true, true, false, true];
    for (text, checks) in programs.iter().zip(expected) {
        let mut program = parse(text);
        let mut gamma = TypeEnviroment::new();
        for term in program.terms.iter_mut() {
            match term.type_check(gamma.clone(), 0) {
                Ok((next, _)) => {
                    gamma = next;
                    assert!(exclusive(&gamma), "{}", text);
                }
                Err(e) => {
                    assert!(!checks, "{}: {:?}", text, e);
                    break;
                }
            }
        }
    }
    let mut broken = TypeEnviroment::new();
    broken.insert("x".to_string(), Type::Numeric, 0);
    broken.insert("a".to_string(), borrow_of("x", true), 0);
    broken.insert("b".to_string(), Type::Box(Box::new(borrow_of("x", false))), 0);
    assert!(!exclusive(&broken));
}

#[test]
fn the_environment_describes_the_state_after_every_term() {
    let mut program = parse(
        "let mut x = box 1
let mut y = x
fn f(a: int): int { a }
let mut z = f(3)
let mut w = box 4
w = box 2
let mut r = mut ref z
*r = 7",
    );
    program.type_check(TypeEnviroment::new(), 0).expect("the program checks");
    let mut interpreter = Interpreter::new();
    for term in &program.terms {
        interpreter.advance(term).expect("the step succeeds");
        let safe = safe_abstraction(
            interpreter.program_state.clone(),
            interpreter.typing_enviroment.clone(),
        );
        assert!(matches!(safe, Ok(true)));
        assert_eq!(interpreter.program_state.stack.len(), 1);
    }
    let report = interpreter.program_state.output().expect("no cycle").entries;
    let line = |name: &str| {
        report.iter().find(|(k, _)| k == name).map(|(_, v)| v.as_str()).expect("reported")
    };
    assert_eq!(line("x"), "Undefined");
    assert_eq!(line("y"), "ref 1");
    assert_eq!(line("w"), "ref 2");
    assert_eq!(line("z"), "7");
    assert_eq!(line("r"), "ref 7");
}

#[test]
fn values_have_the_types_that_the_check_finds() {
    let setup = "let mut n = 5 let mut b = box box 6 let mut s = ref n let mut k = 1";
    let reads = ["n", "s", "b", "*b", "box n", "box box 1", "ref b", "mut ref k", "9"];
    for text in reads {
        let mut interpreter = Interpreter::new();
        interpreter.run(parse(setup)).expect("the setup runs");
        let mut term = parse(text).terms.remove(0);
        let (_, ty) = term
            .type_check(interpreter.typing_enviroment.clone(), 0)
            .expect("the term checks");
        let (state, value) =
            term.evaluate(interpreter.program_state.clone(), 0).expect("the term evaluates");
        let value = match value {
            Term::Value(v) => v,
            other => panic!("{:?}", other),
        };
        assert!(matches!(valid_type(&state, &value, ty), Ok(true)), "{}", text);
    }
}

#[test]
fn a_call_may_give_a_value_of_another_type_than_the_check_found() {
    let mut interpreter = Interpreter::new();
    interpreter.run(parse("fn f() { 5 }")).expect("the declaration runs");
    let mut call = parse("f()").terms.remove(0);
    let (_, ty) =
        call.type_check(interpreter.typing_enviroment.clone(), 0).expect("the call checks");
    assert_eq!(ty, Type::Epsilon);
    let (state, value) =
        call.evaluate(interpreter.program_state.clone(), 0).expect("the call evaluates");
    assert!(matches!(&value, Term::Value(Value::NumericLiteral(5))));
    assert!(matches!(valid_type(&state, &Value::NumericLiteral(5), ty), Ok(false)));
    assert!(matches!(interpreter.run(parse("f()")), Err(Failure::InvalidType)));
}
