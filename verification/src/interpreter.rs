//! The driver: checks a whole program, then runs it term by term, with the
//! consistency checks around each step.
use crate::ast::{views, Expr, Program, Term, Value};
use crate::constants::{verdict, Failure, Fault};
use crate::properties::{assert_preservation, assert_progess, preservation, progress};
use crate::reduction::{eval, eval_term};
use crate::state::{Frame, Heap, Machine, StackFrame, State, Store};
use crate::table::{Replicate, Table};
use crate::typecheck::{check, check_seq, check_term, check_terms};
use crate::typing::{Gamma, TypeEnviroment};
use vstd::prelude::*;

verus! {

/// An interpreter: the state of the program that it runs and the type
/// environment that goes with it.
#[derive(Debug)]
pub struct Interpreter {
    pub program_state: State,
    pub typing_enviroment: TypeEnviroment,
}

/// The model of an `Interpreter`.
pub struct Session {
    pub state: Machine,
    pub env: Gamma,
}

impl View for Interpreter {
    type V = Session;

    open spec fn view(&self) -> Session {
        Session { state: self.program_state@, env: self.typing_enviroment@ }
    }
}

/// The state that a program starts from: one frame that binds nothing, and
/// an empty store.
pub open spec fn initial() -> Session {
    Session {
        state: Machine {
            stack: seq![Frame { locations: Seq::empty(), functions: Seq::empty() }],
            heap: Heap { cells: Seq::empty(), next: 1 },
        },
        env: Seq::empty(),
    }
}

/// One step of a run: the two consistency checks, then the evaluation of
/// the term and the check that moves the environment on.
pub open spec fn step(x: Session, t: Expr) -> Result<Session, Fault> {
    match progress(x.state, t, x.env, 0) {
        Err(e) => Err(e),
        Ok(_) => match preservation(x.state, t, x.env, 0) {
            Err(e) => Err(e),
            Ok(_) => match eval(t, x.state, 0) {
                Err(e) => Err(e),
                Ok((m2, _)) => match check(t, x.env, 0).1 {
                    Err(e) => Err(e),
                    Ok((g2, _)) => Ok(Session { state: m2, env: g2 }),
                },
            },
        },
    }
}

/// The steps of a run, in order, up to the first that fails: what the
/// interpreter has reached, and the failure if there was one.
pub open spec fn steps(ts: Seq<Expr>, x: Session) -> (Session, Result<(), Fault>)
    decreases ts.len(),
{
    if ts.len() == 0 {
        (x, Ok(()))
    } else {
        let (x1, r) = steps(ts.drop_last(), x);
        match r {
            Err(e) => (x1, Err(e)),
            Ok(_) => match step(x1, ts.last()) {
                Ok(x2) => (x2, Ok(())),
                Err(e) => (x1, Err(e)),
            },
        }
    }
}

/// A run of a program: the whole program is checked first, which annotates
/// it, and then it is run step by step. A program that does not check is
/// not run at all.
pub open spec fn ran(program: Seq<Expr>, x: Session) -> (Session, Result<(), Fault>) {
    let (annotated, r) = check_seq(program, x.env, 0);
    match r {
        Err(e) => (x, Err(e)),
        Ok(_) => steps(annotated, x),
    }
}

/// Once the steps up to `i` have failed, so have all of them.
pub proof fn lemma_steps_fail(ts: Seq<Expr>, x: Session, i: int)
    requires
        0 <= i <= ts.len(),
        steps(ts.take(i), x).1 is Err,
    ensures
        steps(ts, x) == steps(ts.take(i), x),
    decreases ts.len() - i,
{
    if i < ts.len() {
        assert(ts.take(i + 1).drop_last() =~= ts.take(i));
        lemma_steps_fail(ts, x, i + 1);
    } else {
        assert(ts.take(i) =~= ts);
    }
}

impl Interpreter {
    /// An interpreter that has run nothing.
    pub fn new() -> (r: Interpreter)
        ensures
            r@ == initial(),
    {
        let mut stack: Vec<StackFrame> = Vec::new();
        stack.push(StackFrame { locations: Table::new(), functions: Table::new() });
        let r = Interpreter {
            program_state: State::new(stack, Store::new()),
            typing_enviroment: TypeEnviroment::new(),
        };
        assert(r@.state.stack =~= initial().state.stack);
        r
    }

    /// Takes one step with the term `t`.
    pub fn advance(&mut self, t: &Term) -> (r: Result<(), Failure>)
        ensures
            match r {
                Ok(_) => step(old(self)@, t@) == Ok::<Session, Fault>(final(self)@),
                Err(e) => step(old(self)@, t@) == Err::<Session, Fault>(e@) && final(self)@ == old(
                    self,
                )@,
            },
    {
        match assert_progess(
            self.program_state.replicate(),
            t.replicate(),
            self.typing_enviroment.replicate(),
            0,
        ) {
            Err(e) => {
                return Err(e);
            },
            Ok(_) => {},
        }
        match assert_preservation(
            self.program_state.replicate(),
            t.replicate(),
            self.typing_enviroment.replicate(),
            0,
        ) {
            Err(e) => {
                return Err(e);
            },
            Ok(_) => {},
        }
        let s = match eval_term(t, self.program_state.replicate(), 0) {
            Err(e) => {
                return Err(e);
            },
            Ok((s, _)) => s,
        };
        let g = match check_term(t, self.typing_enviroment.replicate(), 0).1 {
            Err(e) => {
                return Err(e);
            },
            Ok((g, _)) => g,
        };
        self.typing_enviroment = g;
        self.program_state = s;
        Ok(())
    }

    /// Checks the program and runs it. On success the value is the unit
    /// value, and the interpreter holds the final state; on failure it
    /// holds the state before the step that failed.
    pub fn run(&mut self, ast: Program) -> (r: Result<Value, Failure>)
        ensures
            (final(self)@, verdict(r)) == (
                ran(ast@, old(self)@).0,
                match ran(ast@, old(self)@).1 {
                    Ok(_) => Ok::<Value, Fault>(Value::Epsilon),
                    Err(e) => Err::<Value, Fault>(e),
                },
            ),
    {
        let (annotated, checked) = check_terms(&ast.terms, self.typing_enviroment.replicate(), 0);
        match checked {
            Err(e) => {
                return Err(e);
            },
            Ok(_) => {},
        }
        let ghost start = self@;
        let mut i: usize = 0;
        assert(views(annotated@).take(0) =~= Seq::empty());
        while i < annotated.len()
            invariant
                i <= annotated@.len(),
                start == old(self)@,
                (views(annotated@), Ok::<(), Fault>(())) == (
                    check_seq(ast@, start.env, 0).0,
                    match check_seq(ast@, start.env, 0).1 {
                        Ok(_) => Ok::<(), Fault>(()),
                        Err(e) => Err::<(), Fault>(e),
                    },
                ),
                steps(views(annotated@).take(i as int), start) == (self@, Ok::<(), Fault>(())),
            decreases annotated@.len() - i,
        {
            assert(views(annotated@).take(i + 1).drop_last() =~= views(annotated@).take(i as int));
            match self.advance(&annotated[i]) {
                Err(e) => {
                    proof {
                        lemma_steps_fail(views(annotated@), start, i + 1);
                    }
                    return Err(e);
                },
                Ok(_) => {},
            }
            i = i + 1;
        }
        assert(views(annotated@).take(i as int) =~= views(annotated@));
        Ok(Value::Epsilon)
    }
}

} // verus!
