use mu_interp::ast::{LVal, Program, Reference, Value};
use mu_interp::constants::{Failure, TypeError};
use mu_interp::interpreter::Interpreter;
use mu_interp::lexer::Lexer;
use mu_interp::parser::Parser;
use mu_interp::state::{loc, read, State};
use mu_interp::typecheck::TypeCheck;
use mu_interp::typing::{Type, TypeEnviroment};

fn parse(text: &str) -> Program {
    let mut lexer = Lexer::new(text);
    let tokens = lexer.tokenize().expect("the text has tokens only");
    Parser::new(tokens).parse().expect("the tokens are a program")
}

fn run(text: &str) -> (Interpreter, Result<Value, Failure>) {
    let mut interpreter = Interpreter::new();
    let result = interpreter.run(parse(text));
    (interpreter, result)
}

fn var(name: &str) -> LVal {
    LVal::Variable { name: name.to_string(), copyable: None }
}

fn value_of(state: &State, name: &str) -> Value {
    read(state, &var(name)).expect("the name is bound")
}

fn report(state: &State) -> Vec<(String, String)> {
    state.output().expect("the state can be reported").entries
}

fn pairs(expected: &[(&str, &str)]) -> Vec<(String, String)> {
    expected.iter().map(|(k, v)| (k.to_string(), v.to_string())).collect()
}

#[test]
fn swap() {
    let (interpreter, result) = run("let mut x = 0
let mut y = 1
let mut t = x
x = y
y = t");
    assert!(matches!(result, Ok(Value::Epsilon)));
    let state = &interpreter.program_state;
    assert_eq!(value_of(state, "x"), Value::NumericLiteral(1));
    assert_eq!(value_of(state, "y"), Value::NumericLiteral(0));
    assert_eq!(value_of(state, "t"), Value::NumericLiteral(0));
    assert_eq!(report(state), pairs(&[("x", "1"), ("y", "0"), ("t", "0")]));
}

#[test]
fn box_move_on_assign_drops_old() {
    let (interpreter, result) = run("let mut x = box 1
x = box 2");
    assert!(matches!(result, Ok(Value::Epsilon)));
    let state = &interpreter.program_state;
    let cells = &state.heap.cells.entries;
    assert_eq!(cells.len(), 2);
    let held = match value_of(state, "x") {
        Value::Reference(r) => r,
        other => panic!("x holds {:?}", other),
    };
    assert!(held.owned);
    assert_eq!(state.heap.read(held).expect("the box is live"), Value::NumericLiteral(2));
    assert!(cells.iter().all(|(_, slot)| slot.value != Value::NumericLiteral(1)));
    assert_eq!(report(state), pairs(&[("x", "ref 2")]));
}

#[test]
fn double_mut_ref() {
    let (interpreter, result) = run("let mut x = 0
let mut y = mut ref x
let mut z = mut ref x");
    match result {
        Err(Failure::Type(TypeError::MutrefAlreadyBorrowedImmut(name))) => assert_eq!(name, "x"),
        other => panic!("{:?}", other),
    }
    assert!(interpreter.program_state.heap.cells.entries.is_empty());
}

#[test]
fn reassign_deref() {
    let (interpreter, result) = run("let mut x = 0
let mut y = mut ref x
*y = 4");
    assert!(matches!(result, Ok(Value::Epsilon)));
    let state = &interpreter.program_state;
    assert_eq!(value_of(state, "x"), Value::NumericLiteral(4));
    let x_cell = loc(state, &var("x")).expect("x is bound");
    match value_of(state, "y") {
        Value::Reference(Reference { location, owned, .. }) => {
            assert_eq!(location, x_cell.location);
            assert!(!owned);
        }
        other => panic!("y holds {:?}", other),
    }
    assert_eq!(report(state), pairs(&[("x", "4"), ("y", "ref 4")]));
}

#[test]
fn reference_assigned_to_number_in_function_body() {
    let (_, result) = run("let mut x = 0
fn f(mut ref y: int) {
  x = ref y
}");
    match result {
        Err(Failure::Type(TypeError::IncompatibleTypes(place, value))) => {
            assert_eq!(place, Type::Numeric);
            assert_eq!(value, Type::Reference { var: var("y"), mutable: false });
        }
        other => panic!("{:?}", other),
    }
}

#[test]
fn copy_after_move_fails() {
    let (_, result) = run("let mut x = box 5
let mut y = x
let mut z = x");
    match result {
        Err(Failure::Type(TypeError::TypeMoved(t))) => {
            assert_eq!(t, Type::Box(Box::new(Type::Numeric)))
        }
        other => panic!("{:?}", other),
    }
}

#[test]
fn double_box_deref() {
    let (interpreter, result) = run("let mut x = box box 1
let mut y = *x");
    assert!(matches!(result, Ok(Value::Epsilon)));
    assert_eq!(
        report(&interpreter.program_state),
        pairs(&[("x", "ref Undefined"), ("y", "ref 1")])
    );
}

#[test]
fn dec_after_partial_move() {
    let (_, result) = run("let mut x = box box 1
let mut y = *x
let mut z = *x");
    match result {
        Err(Failure::Type(TypeError::TypeMoved(t))) => {
            assert_eq!(t, Type::Box(Box::new(Type::Numeric)))
        }
        other => panic!("{:?}", other),
    }
}

#[test]
fn copies_read_the_same_value() {
    let (interpreter, result) = run("let mut x = 7
let mut a = x
let mut b = x");
    assert!(matches!(result, Ok(Value::Epsilon)));
    let state = &interpreter.program_state;
    assert_eq!(value_of(state, "x"), Value::NumericLiteral(7));
    assert_eq!(value_of(state, "a"), Value::NumericLiteral(7));
    assert_eq!(value_of(state, "b"), Value::NumericLiteral(7));
}

#[test]
fn shared_borrows_coexist_and_block_mutable_ones() {
    let mut program = parse("let mut x = 0
let mut a = ref x
let mut b = ref x
let mut c = ref x");
    let (gamma, _) = program
        .type_check(TypeEnviroment::new(), 0)
        .expect("shared borrows may be taken any number of times");
    for name in ["a", "b", "c"] {
        let slot = gamma.get(&name.to_string()).expect("the borrow is bound");
        assert_eq!(slot.value, Type::Reference { var: var("x"), mutable: false });
    }
    let (interpreter, result) = run("let mut x = 0
let mut a = ref x
let mut b = ref x");
    assert!(matches!(result, Ok(Value::Epsilon)));
    assert_eq!(
        report(&interpreter.program_state),
        pairs(&[("x", "0"), ("a", "ref 0"), ("b", "ref 0")])
    );
    let (_, result) = run("let mut x = 0
let mut a = ref x
let mut b = mut ref x");
    match result {
        Err(Failure::Type(TypeError::MutrefAlreadyBorrowedImmut(name))) => assert_eq!(name, "x"),
        other => panic!("{:?}", other),
    }
}

#[test]
fn a_store_with_two_equal_references_stops_the_run() {
    let (interpreter, result) = run("let mut x = 0
let mut a = ref x
let mut b = ref x
let mut c = 1");
    assert!(matches!(result, Err(Failure::InvalidState)));
    assert_eq!(
        report(&interpreter.program_state),
        pairs(&[("x", "0"), ("a", "ref 0"), ("b", "ref 0")])
    );
}

#[test]
fn function_call_runs_in_its_own_frame() {
    let (interpreter, result) = run("let mut x = 5
fn id(y: int): int {
  y
}
let mut z = id(x)");
    assert!(matches!(result, Ok(Value::Epsilon)));
    let state = &interpreter.program_state;
    assert_eq!(state.stack.len(), 1);
    assert_eq!(report(state), pairs(&[("x", "5"), ("z", "5")]));
    assert!(state.heap.cells.entries.iter().all(|(_, slot)| slot.lifetime == 0));
}

#[test]
fn function_writes_through_mutable_reference_argument() {
    let (interpreter, result) = run("let mut x = 0
fn set(mut ref r: int) {
  *r = 5
}
set(x)");
    assert!(matches!(result, Ok(Value::Epsilon)));
    assert_eq!(report(&interpreter.program_state), pairs(&[("x", "5")]));
}

#[test]
fn domains_agree_after_a_run() {
    let (interpreter, result) = run("let mut x = 0
fn f(y: int): int {
  y
}
let mut z = box x");
    assert!(matches!(result, Ok(Value::Epsilon)));
    let mut names = interpreter.typing_enviroment.dom();
    names.sort();
    let mut kept: Vec<String> = interpreter.program_state.stack[0]
        .locations
        .entries
        .iter()
        .map(|(k, _)| k.clone())
        .collect();
    kept.sort();
    assert_eq!(names, kept);
    assert_eq!(names, vec!["x".to_string(), "z".to_string()]);
}

#[test]
fn a_program_that_does_not_check_is_not_run() {
    let (interpreter, result) = run("let mut x = 0
let mut y = q");
    match result {
        Err(Failure::Unbound(name)) => assert_eq!(name, "q"),
        other => panic!("{:?}", other),
    }
    assert!(interpreter.program_state.heap.cells.entries.is_empty());
    assert!(interpreter.typing_enviroment.dom().is_empty());
}

#[test]
fn a_declaration_that_takes_the_name_of_a_variable_stops_the_run() {
    let (interpreter, result) = run("let mut f = 1
fn f() { 2 }");
    assert!(matches!(result, Err(Failure::UnsafeAbstractionAfter)));
    assert_eq!(report(&interpreter.program_state), pairs(&[("f", "1")]));
}

#[test]
fn a_variable_may_take_the_name_of_a_function() {
    let (interpreter, result) = run("fn f() { 1 }
let mut f = 2");
    assert!(matches!(result, Ok(Value::Epsilon)));
    assert_eq!(report(&interpreter.program_state), pairs(&[("f", "2")]));
    assert_eq!(interpreter.typing_enviroment.dom(), vec!["f"]);
}

#[test]
fn an_assignment_of_a_stored_value_stops_the_run() {
    let (_, result) = run("let mut x = 0
x = 0");
    assert!(matches!(result, Err(Failure::InvalidState)));
}

#[test]
fn a_statement_that_is_a_value_may_equal_a_stored_one() {
    let (interpreter, result) = run("let mut x = 5
5");
    assert!(matches!(result, Ok(Value::Epsilon)));
    assert_eq!(report(&interpreter.program_state), pairs(&[("x", "5")]));
}

#[test]
fn a_store_that_is_not_valid_is_an_invalid_state() {
    let (interpreter, result) = run("let mut x = 0
let mut a = ref x
let mut b = ref x
b");
    assert!(matches!(result, Err(Failure::InvalidState)));
    assert_eq!(
        report(&interpreter.program_state),
        pairs(&[("x", "0"), ("a", "ref 0"), ("b", "ref 0")])
    );
}

#[test]
fn an_assignment_frees_every_box_that_the_old_value_owned() {
    let (interpreter, result) = run("let mut x = box box 1
let mut y = 7
x = box box 2");
    assert!(matches!(result, Ok(Value::Epsilon)));
    let state = &interpreter.program_state;
    let x = loc(state, &var("x")).expect("x is bound").location;
    let y = loc(state, &var("y")).expect("y is bound").location;
    let mut left: Vec<(usize, Value)> =
        state.heap.cells.entries.iter().map(|(a, slot)| (*a, slot.value.clone())).collect();
    left.sort_by_key(|(a, _)| *a);
    let inner = Reference { location: 5, path: vec![], owned: true };
    let outer = Reference { location: 6, path: vec![], owned: true };
    assert_eq!((x, y), (3, 4));
    assert_eq!(
        left,
        vec![
            (3, Value::Reference(outer)),
            (4, Value::NumericLiteral(7)),
            (5, Value::NumericLiteral(2)),
            (6, Value::Reference(inner)),
        ]
    );
    assert_eq!(state.heap.next, 7);
    assert_eq!(report(state), pairs(&[("x", "ref ref 2"), ("y", "7")]));
}

