use mu_interp::ast::{Argument, LVal, Program, Reference, Term, Value};
use mu_interp::constants::{Failure, TypeError};
use mu_interp::lexer::Lexer;
use mu_interp::parser::Parser;
use mu_interp::properties::{
    assert_preservation, assert_progess, get_values, safe_abstraction, valid_state, valid_store,
    valid_type, well_formed,
};
use mu_interp::reduction::Evaluate;
use mu_interp::state::{
    add_function, bind, drop, drop_lifetime, insert, loc, read, StackFrame, State, Store,
};
use mu_interp::table::Table;
use mu_interp::text::{decimal_text, signed_decimal_text};
use mu_interp::token::Token;
use mu_interp::typecheck::TypeCheck;
use mu_interp::typing::{
    contains, dom, move_var, read_prohibited, root, shape_compatible, undefine, update,
    write_prohibited, Slot, Type, TypeEnviroment, _mut,
};

fn var(name: &str) -> LVal {
    LVal::Variable { name: name.to_string(), copyable: None }
}

fn deref(inner: LVal) -> LVal {
    LVal::Deref { var: Box::new(inner) }
}

fn boxed(t: Type) -> Type {
    Type::Box(Box::new(t))
}

fn borrow_of(name: &str, mutable: bool) -> Type {
    Type::Reference { var: var(name), mutable }
}

fn num(n: i64) -> Term {
    Term::Value(Value::NumericLiteral(n))
}

fn word(s: &str) -> Token {
    Token::Identifier(s.to_string())
}

fn tokens(text: &str) -> Result<Vec<Token>, Failure> {
    Lexer::new(text).tokenize()
}

fn parse(text: &str) -> Result<Program, Failure> {
    Parser::new(tokens(text).expect("the text has tokens only")).parse()
}

fn empty_state() -> State {
    State::new(
        vec![StackFrame { locations: Table::new(), functions: Table::new() }],
        Store::new(),
    )
}

fn owned(location: usize) -> Reference {
    Reference { location, path: vec![], owned: true }
}

fn borrowed(location: usize) -> Reference {
    Reference { location, path: vec![], owned: false }
}

#[test]
fn lexer_cuts_words() {
    let lexer = Lexer::new("let mut x=box 12\n*y");
    assert_eq!(lexer.input, vec!["let", "mut", "x", "=", "box", "12", "*", "y"]);
    assert_eq!(lexer.current_position, 0);
    assert_eq!(Lexer::new("a_b").input, vec!["a", "_", "b"]);
    assert!(Lexer::new("  \n\t ").input.is_empty());
}

#[test]
fn lexer_reads_tokens() {
    let mut lexer = Lexer::new("fn f(mut ref y: int) { *y = 4 }");
    let read = lexer.tokenize().expect("every word is a token");
    assert_eq!(
        read,
        vec![
            Token::Fn,
            word("f"),
            Token::LParen,
            Token::Mut,
            Token::Ref,
            word("y"),
            Token::Colon,
            word("int"),
            Token::RParen,
            Token::LCurl,
            Token::Deref,
            word("y"),
            Token::Assign,
            Token::NumericLiteral(4),
            Token::RCurl,
        ]
    );
    assert_eq!(lexer.current_position, 16);
    assert_eq!(lexer.next_token().expect("the end is a token"), Token::EOF);
    assert_eq!(tokens("let box , ref").expect("signs"), vec![
        Token::Let,
        Token::Box,
        Token::Comma,
        Token::Ref
    ]);
    assert_eq!(tokens("").expect("no words"), vec![]);
}

#[test]
fn lexer_reads_numbers_and_identifiers() {
    assert_eq!(tokens("007").expect("digits"), vec![Token::NumericLiteral(7)]);
    assert_eq!(
        tokens("9223372036854775807").expect("the largest number"),
        vec![Token::NumericLiteral(i64::MAX)]
    );
    assert_eq!(tokens("\u{e9}t\u{e9}").expect("letters"), vec![word("\u{e9}t\u{e9}")]);
}

#[test]
fn lexer_refuses_other_words() {
    let refused = |text: &str| match tokens(text) {
        Err(Failure::InvalidToken(w)) => w,
        other => panic!("{:?}", other),
    };
    assert_eq!(refused("x1"), "x1");
    assert_eq!(refused("let a_b"), "_");
    assert_eq!(refused("9223372036854775808"), "9223372036854775808");
    assert_eq!(refused("\u{663}"), "\u{663}");
    assert_eq!(refused("x + y"), "+");
    assert_eq!(Failure::InvalidToken("x1".to_string()).to_string(), "Invalid token: x1");
}

#[test]
fn lexer_classifies_words() {
    let w = |text: &str| text.to_string();
    assert_eq!(Lexer::classify(&w("42"), true, false).expect("digits"), Token::NumericLiteral(42));
    assert_eq!(Lexer::classify(&w("42"), false, true).expect("letters"), word("42"));
    assert!(matches!(
        Lexer::classify(&w("42"), false, false),
        Err(Failure::InvalidToken(t)) if t == "42"
    ));
    assert!(matches!(
        Lexer::classify(&w("4x"), true, true),
        Err(Failure::InvalidToken(t)) if t == "4x"
    ));
    assert!(matches!(Lexer::classify(&w(""), true, true), Err(Failure::InvalidToken(t)) if t.is_empty()));
    assert_eq!(Lexer::read_word(&w("box")).expect("a keyword"), Token::Box);
    let mut lexer = Lexer { input: vec![w("let"), w("mut"), w("x"), w("="), w("1")], current_position: 2 };
    assert_eq!(
        lexer.tokenize().expect("tokens"),
        vec![word("x"), Token::Assign, Token::NumericLiteral(1)]
    );
    assert_eq!(lexer.current_position, 6);
}

#[test]
fn lexer_stops_at_the_word_it_refuses() {
    let mut lexer = Lexer::new("let x1 = 0");
    assert!(lexer.tokenize().is_err());
    assert_eq!(lexer.current_position, 1);
}

#[test]
fn parser_reads_terms() {
    let program = parse("let mut x = box 0 *x = 4 y").expect("a program");
    assert_eq!(program.terms.len(), 3);
    match &program.terms[0] {
        Term::Let { mutable: true, variable, term } => {
            assert_eq!(*variable, var("x"));
            assert!(matches!(&**term, Term::Box { term } if matches!(**term, Term::Value(Value::NumericLiteral(0)))));
        }
        other => panic!("{:?}", other),
    }
    match &program.terms[1] {
        Term::Assign { variable, term } => {
            assert_eq!(*variable, deref(var("x")));
            assert!(matches!(**term, Term::Value(Value::NumericLiteral(4))));
        }
        other => panic!("{:?}", other),
    }
    assert!(matches!(&program.terms[2], Term::Variable(lv) if *lv == var("y")));
}

#[test]
fn parser_reads_borrows_and_places() {
    let program = parse("mut ref x ref *y **z").expect("a program");
    assert!(matches!(&program.terms[0], Term::Ref { mutable: true, var: v } if *v == var("x")));
    assert!(
        matches!(&program.terms[1], Term::Ref { mutable: false, var: v } if *v == deref(var("y")))
    );
    assert!(matches!(&program.terms[2], Term::Variable(lv) if *lv == deref(deref(var("z")))));
}

#[test]
fn parser_reads_declarations_and_calls() {
    let program = parse(
        "fn f(a: int, ref b: box int, mut c: int mut ref d: int): box int { a b } f(1, x,, *y)",
    )
    .expect("a program");
    match &program.terms[0] {
        Term::FunctionDeclaration { name, args, body, ty } => {
            assert_eq!(name, "f");
            let shape: Vec<(&str, bool, bool)> =
                args.iter().map(|a| (a.name.as_str(), a.mutable, a.reference)).collect();
            assert_eq!(
                shape,
                vec![
                    ("a", false, false),
                    ("b", false, true),
                    ("c", true, false),
                    ("d", true, true)
                ]
            );
            assert_eq!(args[0].ty, Type::Numeric);
            assert_eq!(args[1].ty, boxed(Type::Numeric));
            assert_eq!(body.len(), 2);
            assert_eq!(*ty, Some(boxed(Type::Numeric)));
        }
        other => panic!("{:?}", other),
    }
    match &program.terms[1] {
        Term::FunctionCall { name, params } => {
            assert_eq!(name, "f");
            assert_eq!(params.len(), 3);
            assert!(matches!(&params[2], Term::Variable(lv) if *lv == deref(var("y"))));
        }
        other => panic!("{:?}", other),
    }
    assert!(matches!(
        &parse("f()").expect("a call").terms[0],
        Term::FunctionCall { params, .. } if params.is_empty()
    ));
}

#[test]
fn parser_reports_where_it_fails() {
    let position = |text: &str| match parse(text) {
        Err(Failure::Syntax(p)) => p,
        other => panic!("{:?}", other),
    };
    assert_eq!(position(""), 0);
    assert_eq!(position("let x = 0"), 1);
    assert_eq!(position("mut x"), 1);
    assert_eq!(position("**y = 4"), 3);
    assert_eq!(position("fn f() { }"), 5);
    assert_eq!(position("fn f(): int"), 6);
    assert_eq!(position("fn f(x: bool) { x }"), 5);
    assert_eq!(position("f(1"), 3);
    assert_eq!(position("x = "), 2);
    assert_eq!(position("box"), 1);
    assert_eq!(position("x )"), 1);
    assert_eq!(
        Failure::Syntax(12).to_string(),
        "Unexpected token at position 12"
    );
}

#[test]
fn parser_keeps_its_position() {
    let mut parser = Parser::new(tokens("x y z").expect("tokens"));
    parser.parse().expect("a program");
    assert_eq!(parser.current_position, 3);
    let mut parser = Parser::new(tokens("x = = y").expect("tokens"));
    assert!(parser.parse().is_err());
    assert_eq!(parser.current_position, 0);
}

#[test]
fn numbers_in_decimal() {
    assert_eq!(decimal_text(0), "0");
    assert_eq!(decimal_text(9), "9");
    assert_eq!(decimal_text(10), "10");
    assert_eq!(decimal_text(1234567890), "1234567890");
    assert_eq!(decimal_text(u64::MAX), "18446744073709551615");
    assert_eq!(signed_decimal_text(0), "0");
    assert_eq!(signed_decimal_text(-42), "-42");
    assert_eq!(signed_decimal_text(i64::MAX), "9223372036854775807");
    assert_eq!(signed_decimal_text(i64::MIN), "-9223372036854775808");
}

#[test]
fn values_and_types_as_text() {
    assert_eq!(Value::NumericLiteral(-5).to_string(), "-5");
    assert_eq!(Value::Reference(owned(3)).to_string(), "ref l-3");
    assert_eq!(Value::Epsilon.to_string(), "Epsilon");
    assert_eq!(Value::Undefined.to_string(), "Undefined");
    assert_eq!(Type::Epsilon.to_string(), "Epsilon");
    assert_eq!(Type::Numeric.to_string(), "Numeric");
    assert_eq!(borrow_of("x", true).to_string(), " MutRef x");
    assert_eq!(borrow_of("x", false).to_string(), "Ref x");
    assert_eq!(
        Type::Reference { var: deref(var("p")), mutable: false }.to_string(),
        "Ref p"
    );
    assert_eq!(Type::Undefined(Box::new(boxed(Type::Numeric))).to_string(), "Undefined Box Numeric");
    assert_eq!(Type::Function { args: vec![], ret: None }.to_string(), "Function () -> None");
    assert_eq!(
        Type::Function {
            args: vec![Type::Numeric, borrow_of("y", true)],
            ret: Some(Box::new(boxed(Type::Numeric)))
        }
        .to_string(),
        "Function (Numeric,  MutRef y, ) -> Box Numeric"
    );
}

#[test]
fn failures_as_text() {
    let s = |x: &str| x.to_string();
    assert_eq!(
        Failure::Type(TypeError::LetAlreadyDefined(s("x"))).to_string(),
        "Type error: Variable already defined: x"
    );
    assert_eq!(Failure::Unbound(s("x")).to_string(), "Variable x not found in type environment");
    assert_eq!(
        Failure::NotAReference(s("x")).to_string(),
        "Error type-checking dereference: variable x is not a reference"
    );
    assert_eq!(Failure::InvalidValue.to_string(), "Invalid value");
    assert_eq!(
        Failure::SharedTarget(s("x")).to_string(),
        "Error updating reference: variable x is not mutable"
    );
    assert_eq!(Failure::UnknownFunction(s("f")).to_string(), "Function: f not found");
    assert_eq!(Failure::UnknownVariable(s("v")).to_string(), "Variable: v not found");
    assert_eq!(
        Failure::NotAPointer(s("v")).to_string(),
        "Error dereferencing variable: v is not a reference"
    );
    assert_eq!(Failure::MissingCell(7).to_string(), "Store has no cell at l-7");
    assert_eq!(Failure::InvalidState.to_string(), "Invalid state");
    assert_eq!(
        Failure::UnsafeAbstraction.to_string(),
        "Type enviroment is not a safe abstraction of current state"
    );
    assert_eq!(
        Failure::UnsafeAbstractionAfter.to_string(),
        "Type enviroment is not a safe abstraction of current state after preservation"
    );
    assert_eq!(Failure::InvalidType.to_string(), "Invalid type");
}

#[test]
fn store_allocates_fresh_cells() {
    let mut store = Store::new();
    let a = store.allocate(Value::NumericLiteral(1), 0);
    let b = store.allocate(Value::Reference(a.clone()), 3);
    assert_eq!(a, owned(1));
    assert_eq!(b, owned(2));
    assert_eq!(store.next, 3);
    assert_eq!(store.read(a.clone()).expect("a cell"), Value::NumericLiteral(1));
    assert_eq!(store.get(b.clone()).expect("a cell").lifetime, 3);
    store.write(a.clone(), Value::Undefined).expect("a cell");
    assert_eq!(store.read(a.clone()).expect("a cell"), Value::Undefined);
    assert_eq!(store.get(a).expect("a cell").lifetime, 0);
    assert!(matches!(store.read(owned(9)), Err(Failure::MissingCell(9))));
    assert!(matches!(store.write(owned(9), Value::Epsilon), Err(Failure::MissingCell(9))));
    assert!(store.get(owned(9)).is_none());
}

#[test]
fn drop_frees_what_a_box_owns() {
    let mut store = Store::new();
    let kept = store.allocate(Value::NumericLiteral(0), 0);
    let inner = store.allocate(Value::NumericLiteral(1), 0);
    let outer = store.allocate(Value::Reference(inner.clone()), 0);
    store.drop(&Value::Reference(outer)).expect("the boxes are live");
    let left: Vec<usize> = store.cells.entries.iter().map(|(a, _)| *a).collect();
    assert_eq!(left, vec![kept.location]);
    let fresh = store.allocate(Value::Epsilon, 0);
    assert_eq!(fresh.location, 4);
}

#[test]
fn drop_leaves_other_values_alone() {
    let mut store = Store::new();
    let cell = store.allocate(Value::NumericLiteral(1), 0);
    for value in [
        Value::Undefined,
        Value::Undefined,
        Value::Epsilon,
        Value::NumericLiteral(1),
        Value::Reference(borrowed(cell.location)),
    ] {
        store.drop(&value).expect("nothing to free");
        assert_eq!(store.cells.entries.len(), 1);
    }
    assert!(matches!(store.drop(&Value::Reference(owned(8))), Err(Failure::MissingCell(8))));
}

#[test]
fn drop_of_a_box_that_owns_itself_ends() {
    let mut store = Store::new();
    let cell = store.allocate(Value::Epsilon, 0);
    store.write(cell.clone(), Value::Reference(cell.clone())).expect("a cell");
    assert!(matches!(store.drop(&Value::Reference(cell)), Err(Failure::MissingCell(1))));
}

#[test]
fn drop_lifetime_removes_the_cells_and_the_frame() {
    let mut state = empty_state();
    state.stack.push(StackFrame { locations: Table::new(), functions: Table::new() });
    let (state, a) = insert(state, 0, &Value::NumericLiteral(1));
    let (state, b) = insert(state, 1, &Value::NumericLiteral(2));
    let (state, _) = insert(state, 1, &Value::NumericLiteral(3));
    let (state, c) = insert(state, 2, &Value::NumericLiteral(4));
    let state = bind(state, &"inner".to_string(), b);
    let state = drop_lifetime(state, 1);
    assert_eq!(state.stack.len(), 1);
    assert!(state.stack[0].locations.entries.is_empty());
    let left: Vec<(usize, usize)> =
        state.heap.cells.entries.iter().map(|(k, slot)| (*k, slot.lifetime)).collect();
    assert_eq!(left, vec![(a.location, 0), (c.location, 2)]);
}

#[test]
fn state_finds_places() {
    let state = empty_state();
    let (state, x) = insert(state, 0, &Value::NumericLiteral(5));
    let state = bind(state, &"x".to_string(), x.clone());
    let (state, y) = insert(state, 0, &Value::Reference(borrowed(x.location)));
    let state = bind(state, &"y".to_string(), y.clone());
    assert_eq!(state.locate("x".to_string()).expect("bound"), x);
    assert_eq!(loc(&state, &var("y")).expect("bound"), y);
    assert_eq!(loc(&state, &deref(var("y"))).expect("bound"), borrowed(x.location));
    assert_eq!(read(&state, &deref(var("y"))).expect("bound"), Value::NumericLiteral(5));
    assert!(matches!(state.locate("z".to_string()), Err(Failure::UnknownVariable(n)) if n == "z"));
    assert!(matches!(loc(&state, &deref(var("x"))), Err(Failure::NotAPointer(n)) if n == "x"));
    assert!(
        matches!(loc(&state, &deref(deref(var("y")))), Err(Failure::NotAPointer(n)) if n == "y")
    );
    let state = mu_interp::state::write(state, &deref(var("y")), &Value::NumericLiteral(6)).expect("bound");
    assert_eq!(read(&state, &var("x")).expect("bound"), Value::NumericLiteral(6));
    assert_eq!(state.top().locations.entries.len(), 2);
    let state = drop(state, &Value::Reference(x)).expect("live");
    assert!(matches!(read(&state, &var("x")), Err(Failure::MissingCell(1))));
}

#[test]
fn state_names_each_variable_once() {
    let mut state = empty_state();
    let (s, a) = insert(state, 0, &Value::NumericLiteral(1));
    state = bind(s, &"x".to_string(), a.clone());
    state = bind(state, &"y".to_string(), a.clone());
    state.stack.push(StackFrame { locations: Table::new(), functions: Table::new() });
    state = bind(state, &"y".to_string(), a.clone());
    state = bind(state, &"z".to_string(), a);
    assert_eq!(state.dom(), vec!["x", "y", "z"]);
    let mut state = state;
    state.top_mut().locations.insert("w".to_string(), owned(1));
    assert_eq!(state.dom(), vec!["x", "y", "z", "w"]);
}

#[test]
fn state_keeps_functions() {
    let state = empty_state();
    let state = add_function(
        state,
        "f".to_string(),
        vec![Argument { name: "a".to_string(), ty: Type::Numeric, mutable: false, reference: false }],
        vec![num(1)],
    );
    let kept = state.top().functions.get(&"f".to_string()).expect("declared");
    assert_eq!(kept.args.len(), 1);
    assert_eq!(kept.body.len(), 1);
}

#[test]
fn report_follows_references() {
    let state = empty_state();
    let (state, n) = insert(state, 0, &Value::NumericLiteral(9));
    let (state, b) = insert(state, 0, &Value::Reference(n));
    let (state, x) = insert(state, 0, &Value::Reference(b));
    let state = bind(state, &"x".to_string(), x);
    let report = state.output().expect("no cycle");
    assert_eq!(report.entries, vec![("x".to_string(), "ref ref 9".to_string())]);
}

#[test]
fn report_of_a_cycle_fails() {
    let state = empty_state();
    let (state, a) = insert(state, 0, &Value::Epsilon);
    let state = mu_interp::state::write(bind(state, &"x".to_string(), a.clone()), &var("x"), &Value::Reference(borrowed(a.location)))
        .expect("bound");
    assert!(matches!(state.output(), Err(Failure::Cyclic(1))));
    assert_eq!(Failure::Cyclic(1).to_string(), "References at l-1 form a cycle");
}

#[test]
fn environment_lookups() {
    let mut gamma = TypeEnviroment::new();
    gamma.insert("x".to_string(), Type::Numeric, 2);
    gamma.insert("m".to_string(), Type::Undefined(Box::new(Type::Numeric)), 0);
    gamma.insert("b".to_string(), boxed(Type::Undefined(Box::new(boxed(Type::Numeric)))), 0);
    gamma.insert("f".to_string(), Type::Function { args: vec![], ret: None }, 0);
    let x = gamma.get(&"x".to_string()).expect("bound");
    assert_eq!((x.value, x.lifetime), (Type::Numeric, 2));
    assert!(matches!(gamma.get(&"q".to_string()), Err(Failure::Unbound(n)) if n == "q"));
    assert!(matches!(
        gamma.get(&"m".to_string()),
        Err(Failure::Type(TypeError::TypeMoved(t))) if t == Type::Numeric
    ));
    assert!(matches!(
        gamma.get(&"b".to_string()),
        Err(Failure::Type(TypeError::TypeMoved(t))) if t == boxed(Type::Numeric)
    ));
    let partial = gamma.get_partial(&"m".to_string()).expect("bound");
    assert_eq!(partial.value, Type::Undefined(Box::new(Type::Numeric)));
    assert!(gamma.get_atomic(Slot { value: boxed(Type::Numeric), lifetime: 0 }).is_ok());
    assert_eq!(gamma.dom(), vec!["x", "m", "b"]);
    assert_eq!(dom(&gamma), vec!["x", "m", "b", "f"]);
    gamma.insert("x".to_string(), boxed(Type::Numeric), 5);
    assert_eq!(dom(&gamma), vec!["x", "m", "b", "f"]);
    assert_eq!(gamma.dom(), vec!["x", "m", "b"]);
    assert_eq!(gamma.get(&"x".to_string()).expect("bound").lifetime, 5);
}

#[test]
fn copyable_types() {
    assert!(Type::Numeric.copyable());
    assert!(borrow_of("x", false).copyable());
    assert!(Type::Function { args: vec![], ret: None }.copyable());
    assert!(Type::Epsilon.copyable());
    assert!(!boxed(Type::Numeric).copyable());
    assert!(!borrow_of("x", true).copyable());
}

#[test]
fn shapes() {
    let gamma = TypeEnviroment::new();
    let ok = |a: &Type, b: &Type| shape_compatible(&gamma, a, b);
    assert!(ok(&Type::Numeric, &Type::Numeric));
    assert!(ok(&boxed(Type::Numeric), &boxed(Type::Numeric)));
    assert!(!ok(&boxed(Type::Numeric), &boxed(boxed(Type::Numeric))));
    assert!(ok(&borrow_of("x", true), &borrow_of("y", true)));
    assert!(!ok(&borrow_of("x", true), &borrow_of("x", false)));
    assert!(ok(&Type::Undefined(Box::new(Type::Numeric)), &Type::Numeric));
    assert!(ok(&Type::Numeric, &Type::Undefined(Box::new(Type::Numeric))));
    assert!(ok(&boxed(Type::Undefined(Box::new(Type::Numeric))), &boxed(Type::Numeric)));
    assert!(!ok(&Type::Epsilon, &Type::Epsilon));
    assert!(!ok(&Type::Numeric, &boxed(Type::Numeric)));
}

#[test]
fn containment() {
    assert!(contains(borrow_of("x", true), borrow_of("x", true)));
    assert!(contains(boxed(boxed(borrow_of("x", false))), borrow_of("x", false)));
    assert!(!contains(boxed(borrow_of("x", false)), borrow_of("x", true)));
    assert!(!contains(Type::Undefined(Box::new(borrow_of("x", true))), borrow_of("x", true)));
    assert!(contains(boxed(Type::Numeric), boxed(Type::Numeric)));
    assert!(contains(boxed(Type::Numeric), Type::Numeric));
    let annotated = Type::Reference {
        var: LVal::Variable { name: "x".to_string(), copyable: Some(true) },
        mutable: true,
    };
    assert!(contains(annotated, borrow_of("x", true)));
}

#[test]
fn roots_and_prohibitions() {
    let mut gamma = TypeEnviroment::new();
    gamma.insert("x".to_string(), Type::Numeric, 0);
    gamma.insert("y".to_string(), Type::Numeric, 0);
    gamma.insert("r".to_string(), boxed(borrow_of("x", false)), 0);
    gamma.insert("m".to_string(), borrow_of("y", true), 0);
    assert_eq!(root(&gamma, deref(deref(var("x")))).expect("bound"), var("x"));
    assert_eq!(root(&gamma, var("q")).expect("a variable is its own root"), var("q"));
    assert!(matches!(root(&gamma, deref(var("q"))), Err(Failure::Unbound(n)) if n == "q"));
    assert!(write_prohibited(&gamma, var("x")));
    assert!(!read_prohibited(&gamma, var("x")));
    assert!(write_prohibited(&gamma, deref(var("y"))));
    assert!(read_prohibited(&gamma, var("y")));
    assert!(!write_prohibited(&gamma, var("r")));
    assert!(!read_prohibited(&gamma, var("m")));
}

#[test]
fn moves_keep_the_shell_and_the_lifetime() {
    assert_eq!(undefine(var("x"), Type::Numeric), Type::Undefined(Box::new(Type::Numeric)));
    assert_eq!(
        undefine(deref(deref(var("x"))), boxed(boxed(Type::Numeric))),
        boxed(boxed(Type::Undefined(Box::new(Type::Numeric))))
    );
    let mut gamma = TypeEnviroment::new();
    gamma.insert("x".to_string(), boxed(boxed(Type::Numeric)), 4);
    let gamma = move_var(gamma, deref(var("x")), 9).expect("x is bound");
    let x = gamma.get_partial(&"x".to_string()).expect("bound");
    assert_eq!(x.value, boxed(Type::Undefined(Box::new(boxed(Type::Numeric)))));
    assert_eq!(x.lifetime, 4);
    assert!(matches!(
        move_var(gamma, var("q"), 0),
        Err(Failure::Unbound(n)) if n == "q"
    ));
    let mut gamma = TypeEnviroment::new();
    gamma.insert("r".to_string(), borrow_of("x", true), 0);
    assert!(matches!(
        move_var(gamma, deref(var("r")), 0),
        Err(Failure::Shape(n)) if n == "r"
    ));
}

#[test]
fn mutable_places() {
    let mut gamma = TypeEnviroment::new();
    gamma.insert("x".to_string(), Type::Numeric, 0);
    gamma.insert("s".to_string(), borrow_of("x", false), 0);
    gamma.insert("m".to_string(), borrow_of("s", true), 0);
    gamma.insert("b".to_string(), boxed(Type::Numeric), 0);
    assert!(_mut(&gamma, var("x")));
    assert!(!_mut(&gamma, var("s")));
    assert!(_mut(&gamma, deref(var("s"))));
    assert!(_mut(&gamma, var("m")));
    assert!(!_mut(&gamma, deref(var("m"))));
    assert!(_mut(&gamma, deref(var("b"))));
}

#[test]
fn writes_through_places() {
    let mut gamma = TypeEnviroment::new();
    gamma.insert("x".to_string(), Type::Numeric, 1);
    gamma.insert("b".to_string(), boxed(boxed(Type::Numeric)), 2);
    gamma.insert("m".to_string(), borrow_of("x", true), 3);
    gamma.insert("s".to_string(), borrow_of("x", false), 4);
    let value_of = |g: &TypeEnviroment, name: &str| {
        let slot = g.get_partial(&name.to_string()).expect("bound");
        (slot.value, slot.lifetime)
    };
    let g = mu_interp::typing::write(gamma.clone(), deref(var("b")), Type::Numeric).expect("a box");
    assert_eq!(value_of(&g, "b"), (boxed(Type::Numeric), 2));
    let g = mu_interp::typing::write(gamma.clone(), deref(var("m")), boxed(Type::Numeric))
        .expect("a mutable reference");
    assert_eq!(value_of(&g, "x"), (boxed(Type::Numeric), 1));
    assert_eq!(value_of(&g, "m"), (borrow_of("x", true), 3));
    assert!(matches!(
        mu_interp::typing::write(gamma.clone(), deref(var("s")), Type::Numeric),
        Err(Failure::SharedTarget(n)) if n == "x"
    ));
    assert!(matches!(
        mu_interp::typing::write(gamma.clone(), deref(var("x")), Type::Numeric),
        Err(Failure::Shape(n)) if n == "x"
    ));
    let (g, t) = update(gamma.clone(), &deref(var("b")), boxed(Type::Numeric), Type::Epsilon)
        .expect("a box");
    assert_eq!(t, boxed(Type::Epsilon));
    assert_eq!(value_of(&g, "b"), (boxed(boxed(Type::Numeric)), 2));
    let mut cyclic = TypeEnviroment::new();
    cyclic.insert(
        "y".to_string(),
        Type::Reference { var: deref(var("y")), mutable: true },
        0,
    );
    assert!(matches!(
        mu_interp::typing::write(cyclic, deref(var("y")), Type::Numeric),
        Err(Failure::BorrowCycle(n)) if n == "y"
    ));
}

#[test]
fn lifetimes_of_borrowed_places() {
    let mut gamma = TypeEnviroment::new();
    gamma.insert("x".to_string(), Type::Numeric, 2);
    assert!(borrow_of("x", false).within(&gamma, 2));
    assert!(!boxed(borrow_of("x", true)).within(&gamma, 1));
    assert!(Type::Numeric.within(&gamma, 0));
    assert!(matches!(
        borrow_of("q", true).within_checked(&gamma, 0),
        Err(Failure::Unbound(n)) if n == "q"
    ));
}

#[test]
fn checks_of_values_and_places() {
    let mut gamma = TypeEnviroment::new();
    gamma.insert("x".to_string(), boxed(Type::Numeric), 0);
    gamma.insert("r".to_string(), borrow_of("x", false), 0);
    let (_, t) = Value::NumericLiteral(3).type_check(gamma.clone(), 0).expect("a number");
    assert_eq!(t, Type::Numeric);
    let (_, t) = Value::Epsilon.type_check(gamma.clone(), 0).expect("the unit");
    assert_eq!(t, Type::Epsilon);
    assert!(matches!(Value::Undefined.type_check(gamma.clone(), 0), Err(Failure::InvalidValue)));
    assert!(matches!(
        Value::Reference(owned(1)).type_check(gamma.clone(), 0),
        Err(Failure::InvalidValue)
    ));
    let (_, t) = deref(var("x")).type_check(gamma.clone(), 0).expect("a box");
    assert_eq!(t, Type::Numeric);
    let (_, t) = deref(var("r")).type_check(gamma.clone(), 0).expect("a reference");
    assert_eq!(t, boxed(Type::Numeric));
    let (_, t) = deref(deref(var("r"))).type_check(gamma.clone(), 0).expect("a box");
    assert_eq!(t, Type::Numeric);
    assert!(matches!(
        deref(deref(var("x"))).type_check(gamma.clone(), 0),
        Err(Failure::NotAReference(n)) if n == "x"
    ));
    let mut deep = Term::FunctionDeclaration {
        name: "f".to_string(),
        args: vec![],
        body: vec![num(1)],
        ty: None,
    };
    assert!(matches!(deep.type_check(gamma, usize::MAX), Err(Failure::TooDeep)));
}

#[test]
fn evaluation_of_terms() {
    let state = empty_state();
    assert!(matches!(
        Term::Variable(var("x")).evaluate(state.clone(), 0),
        Err(Failure::NotAnnotated(n)) if n == "x"
    ));
    assert!(matches!(
        Term::FunctionCall { name: "f".to_string(), params: vec![] }.evaluate(state.clone(), 0),
        Err(Failure::UnknownFunction(n)) if n == "f"
    ));
    let (state, value) = Term::Box { term: Box::new(num(3)) }
        .evaluate(state, 7)
        .expect("a box can always be made");
    match value {
        Term::Value(Value::Reference(r)) => {
            assert_eq!(r, owned(1));
            assert_eq!(state.heap.get(r).expect("live").lifetime, 0);
        }
        other => panic!("{:?}", other),
    }
    let mut read_x = Term::Let {
        mutable: true,
        variable: var("x"),
        term: Box::new(num(1)),
    };
    let (state, value) = read_x.evaluate(state, 3).expect("a let");
    assert!(matches!(value, Term::Value(Value::Epsilon)));
    let x = loc(&state, &var("x")).expect("bound");
    assert_eq!(state.heap.get(x).expect("live").lifetime, 3);
    let mut moved = Term::Variable(LVal::Variable { name: "x".to_string(), copyable: Some(false) });
    let (state, value) = moved.evaluate(state, 3).expect("a move");
    assert!(matches!(value, Term::Value(Value::NumericLiteral(1))));
    assert_eq!(read(&state, &var("x")).expect("bound"), Value::Undefined);
    let mut empty = State::new(vec![], Store::new());
    empty.heap.next = 1;
    assert!(matches!(read_x.evaluate(empty, 0), Err(Failure::NoFrame)));
    let mut full = empty_state();
    full.heap.next = usize::MAX;
    assert!(matches!(read_x.evaluate(full, 0), Err(Failure::StoreFull)));
}

#[test]
fn evaluation_of_a_program_takes_its_first_term() {
    let mut program = Program { terms: vec![num(1), num(2)] };
    let (_, rest) = program.evaluate(empty_state(), 0).expect("a value");
    assert_eq!(rest.terms.len(), 1);
    assert_eq!(program.terms.len(), 1);
    assert!(matches!(rest.terms[0], Term::Value(Value::NumericLiteral(2))));
}

#[test]
fn validity_of_stores_and_states() {
    let state = empty_state();
    let (state, a) = insert(state, 0, &Value::NumericLiteral(1));
    let (state, _) = insert(state, 0, &Value::NumericLiteral(1));
    assert!(valid_store(state.clone()).expect("decided"));
    let (state, _) = insert(state, 0, &Value::Reference(borrowed(a.location)));
    assert!(valid_store(state.clone()).expect("decided"));
    assert!(valid_state(state.clone(), num(5)).expect("decided"));
    assert!(valid_state(state.clone(), num(1)).expect("decided"));
    assert!(!valid_state(state.clone(), Term::Box { term: Box::new(num(1)) }).expect("decided"));
    assert!(valid_state(state.clone(), Term::Box { term: Box::new(num(5)) }).expect("decided"));
    assert!(valid_state(
        state.clone(),
        Term::Let { mutable: true, variable: var("x"), term: Box::new(num(1)) }
    )
    .expect("decided"));
    assert!(!valid_state(
        state.clone(),
        Term::Assign { variable: var("x"), term: Box::new(Term::Box { term: Box::new(num(1)) }) }
    )
    .expect("decided"));
    let (state, _) = insert(state, 0, &Value::Reference(borrowed(a.location)));
    assert!(!valid_store(state.clone()).expect("decided"));
    assert!(matches!(valid_state(state, num(5)), Ok(false)));
}

#[test]
fn values_that_a_term_reaches() {
    let body = Term::FunctionDeclaration {
        name: "f".to_string(),
        args: vec![],
        body: vec![
            num(1),
            Term::Box { term: Box::new(num(2)) },
            Term::Let { mutable: true, variable: var("x"), term: Box::new(num(3)) },
            Term::Assign { variable: var("x"), term: Box::new(num(1)) },
        ],
        ty: None,
    };
    assert_eq!(
        get_values(body, vec![Value::Epsilon]),
        vec![Value::Epsilon, Value::NumericLiteral(1), Value::NumericLiteral(2)]
    );
    assert_eq!(get_values(num(7), vec![Value::Epsilon]), vec![Value::Epsilon]);
    assert_eq!(
        get_values(Term::Box { term: Box::new(num(7)) }, vec![]),
        vec![Value::NumericLiteral(7)]
    );
    assert!(get_values(Term::Ref { mutable: false, var: var("x") }, vec![]).is_empty());
}

#[test]
fn validity_of_values() {
    let state = empty_state();
    let (state, n) = insert(state, 0, &Value::NumericLiteral(1));
    let state = bind(state, &"x".to_string(), n.clone());
    let (state, b) = insert(state, 0, &Value::Reference(n.clone()));
    let valid = |v: &Value, t: Type| valid_type(&state, v, t).expect("decided");
    assert!(valid(&Value::NumericLiteral(1), Type::Numeric));
    assert!(valid(&Value::Epsilon, Type::Epsilon));
    assert!(valid(&Value::Undefined, Type::Undefined(Box::new(Type::Numeric))));
    assert!(valid(&Value::NumericLiteral(1), Type::Undefined(Box::new(Type::Numeric))));
    assert!(valid(&Value::Reference(n.clone()), boxed(Type::Numeric)));
    assert!(valid(&Value::Reference(b.clone()), boxed(boxed(Type::Numeric))));
    assert!(!valid(&Value::Reference(b.clone()), boxed(Type::Numeric)));
    assert!(valid(&Value::Reference(borrowed(9)), borrow_of("x", false)));
    assert!(!valid(&Value::Reference(n.clone()), borrow_of("x", false)));
    assert!(!valid(&Value::Reference(borrowed(1)), boxed(Type::Numeric)));
    assert!(!valid(&Value::NumericLiteral(1), Type::Epsilon));
    assert!(!valid(&Value::Undefined, Type::Numeric));
    assert!(!valid(&Value::NumericLiteral(1), Type::Function { args: vec![], ret: None }));
    assert!(matches!(
        valid_type(&state, &Value::Reference(borrowed(1)), borrow_of("q", true)),
        Err(Failure::UnknownVariable(name)) if name == "q"
    ));
    assert!(matches!(
        valid_type(&state, &Value::Reference(owned(9)), boxed(Type::Numeric)),
        Err(Failure::MissingCell(9))
    ));
}

#[test]
fn well_formed_environments() {
    let mut gamma = TypeEnviroment::new();
    gamma.insert("x".to_string(), Type::Numeric, 0);
    gamma.insert("r".to_string(), boxed(borrow_of("x", true)), 0);
    gamma.insert("self".to_string(), borrow_of("self", false), 0);
    assert!(well_formed(gamma.clone()).expect("formed"));
    gamma.insert("x".to_string(), Type::Undefined(Box::new(Type::Numeric)), 0);
    assert!(matches!(
        well_formed(gamma),
        Err(Failure::Type(TypeError::TypeMoved(t))) if t == Type::Numeric
    ));
}

#[test]
fn safe_abstractions() {
    let state = empty_state();
    let (state, n) = insert(state, 0, &Value::NumericLiteral(1));
    let state = bind(state, &"x".to_string(), n);
    let mut gamma = TypeEnviroment::new();
    assert!(!safe_abstraction(state.clone(), gamma.clone()).expect("decided"));
    gamma.insert("x".to_string(), Type::Numeric, 0);
    gamma.insert("f".to_string(), Type::Function { args: vec![], ret: None }, 0);
    assert!(safe_abstraction(state.clone(), gamma.clone()).expect("decided"));
    gamma.insert("x".to_string(), boxed(Type::Numeric), 0);
    assert!(!safe_abstraction(state.clone(), gamma.clone()).expect("decided"));
    gamma.insert("y".to_string(), Type::Numeric, 0);
    assert!(!safe_abstraction(state, gamma).expect("decided"));
}

#[test]
fn progress_and_preservation() {
    let state = empty_state();
    let gamma = TypeEnviroment::new();
    let term = Term::Let { mutable: true, variable: var("x"), term: Box::new(num(1)) };
    assert!(assert_progess(state.clone(), term.clone(), gamma.clone(), 0).is_ok());
    assert!(assert_preservation(state.clone(), term, gamma.clone(), 0).is_ok());
    assert!(assert_progess(state.clone(), num(1), gamma.clone(), 0).is_ok());
    let unbound = Term::Variable(var("x"));
    assert!(matches!(
        assert_progess(state.clone(), unbound, gamma.clone(), 0),
        Err(Failure::Unbound(n)) if n == "x"
    ));
    let (state, n) = insert(state, 0, &Value::NumericLiteral(1));
    let state = bind(state, &"x".to_string(), n);
    assert!(matches!(
        assert_progess(state.clone(), num(2), gamma.clone(), 0),
        Err(Failure::UnsafeAbstraction)
    ));
    assert!(matches!(
        assert_preservation(state.clone(), Term::Box { term: Box::new(num(1)) }, gamma.clone(), 0),
        Err(Failure::InvalidState)
    ));
    assert!(matches!(
        assert_preservation(state, num(1), gamma, 0),
        Err(Failure::UnsafeAbstraction)
    ));
    let mut interpreter = mu_interp::interpreter::Interpreter::new();
    let program = Program {
        terms: vec![
            Term::FunctionDeclaration {
                name: "f".to_string(),
                args: vec![],
                body: vec![num(5)],
                ty: None,
            },
            Term::FunctionCall { name: "f".to_string(), params: vec![] },
        ],
    };
    assert!(matches!(interpreter.run(program), Err(Failure::InvalidType)));
}

#[test]
fn tables_keep_the_order_of_first_insertion() {
    let mut table: Table<String, String> = Table::new();
    assert_eq!(table.len(), 0);
    let s = |x: &str| x.to_string();
    table.insert(s("b"), s("1"));
    table.insert(s("a"), s("2"));
    table.insert(s("b"), s("3"));
    assert_eq!(table.entries, vec![(s("b"), s("3")), (s("a"), s("2"))]);
    assert_eq!(table.len(), 2);
    assert_eq!(table.position(&s("a")), Some(1));
    assert_eq!(table.position(&s("c")), None);
    assert_eq!(table.get(&s("b")), Some(&s("3")));
    assert!(table.contains_key(&s("a")));
    assert!(!table.contains_key(&s("c")));
    assert_eq!(table.key_at(0), "b");
    assert_eq!(table.value_at(1), "2");
    table.remove(&s("c"));
    table.remove(&s("b"));
    assert_eq!(table.entries, vec![(s("a"), s("2"))]);
    table.remove_at(0);
    assert!(table.entries.is_empty());
}

#[test]
fn references_as_text() {
    assert_eq!(owned(12).to_string(), "l-12");
    assert!(owned(3).same(&owned(3)));
    assert!(!owned(3).same(&borrowed(3)));
    assert!(!owned(3).same(&Reference { location: 3, path: vec![1], owned: true }));
    assert!(Value::Reference(owned(1)).same(&Value::Reference(owned(1))));
    assert!(!Value::Epsilon.same(&Value::Undefined));
}
