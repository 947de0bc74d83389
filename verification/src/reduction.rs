//! The evaluator: what each term does to the state, and the value it leaves.
use crate::ast::{
    replicate_arguments, replicate_terms, views, Argument, Expr, LVal, Param, Place, Pointer,
    Program, Reference, Term, Val, Value,
};
use crate::constants::{outcome, Failure, Fault};
use crate::state::{
    add_function, bind, drop, drop_lifetime, insert, loc, read, Machine, Routine, StackFrame,
    State,
};
use crate::table::{lookup, Replicate, Table};
use vstd::prelude::*;

verus! {

/// What an evaluation gives: the state after the term and the value of the
/// term, or the reason why the term cannot be evaluated.
pub type Evaluated = Result<(Machine, Val), Fault>;

/// The borrow that stands for the owning or borrowing reference `p`.
pub open spec fn borrow_of(p: Pointer) -> Pointer {
    Pointer { location: p.location, path: p.path, owned: false }
}

/// The state with `v` in a new cell of the lifetime `l`, kept under the name
/// `x` in the innermost frame.
pub open spec fn define(m: Machine, x: Seq<char>, v: Val, l: usize) -> Result<Machine, Fault> {
    if m.heap.next == usize::MAX {
        Err(Fault::StoreFull)
    } else if m.stack.len() == 0 {
        Err(Fault::NoFrame)
    } else {
        Ok(m.insert(l, v).bind(x, m.heap.fresh()))
    }
}

/// The evaluation of a term in the state `m` at the lifetime `l`.
pub open spec fn eval(t: Expr, m: Machine, l: usize) -> Evaluated
    decreases usize::MAX - l, t,
{
    match t {
        Expr::Value(v) => Ok((m, v)),
        Expr::Variable(lv) => match lv.copies() {
            Err(e) => Err(e),
            Ok(true) => match m.read(lv) {
                Ok(v) => Ok((m, v)),
                Err(e) => Err(e),
            },
            Ok(false) => match m.read(lv) {
                Ok(v) => match m.write(lv, Val::Undefined) {
                    Ok(m2) => Ok((m2, v)),
                    Err(e) => Err(e),
                },
                Err(e) => Err(e),
            },
        },
        Expr::Box { term } => match eval(*term, m, l) {
            Ok((m2, v)) => if m2.heap.next == usize::MAX {
                Err(Fault::StoreFull)
            } else {
                Ok((m2.insert(0, v), Val::Reference(m2.heap.fresh())))
            },
            Err(e) => Err(e),
        },
        Expr::Ref { var, .. } => match m.loc(var) {
            Ok(p) => Ok((m, Val::Reference(borrow_of(p)))),
            Err(e) => Err(e),
        },
        Expr::Let { variable, term, .. } => match eval(*term, m, l) {
            Ok((m2, v)) => match define(m2, variable.name(), v, l) {
                Ok(m3) => Ok((m3, Val::Epsilon)),
                Err(e) => Err(e),
            },
            Err(e) => Err(e),
        },
        Expr::Assign { variable, term } => match eval(*term, m, l) {
            Ok((m2, v)) => match m2.read(variable) {
                Ok(displaced) => match m2.drop(displaced) {
                    Ok(m3) => match m3.write(variable, v) {
                        Ok(m4) => Ok((m4, Val::Epsilon)),
                        Err(e) => Err(e),
                    },
                    Err(e) => Err(e),
                },
                Err(e) => Err(e),
            },
            Err(e) => Err(e),
        },
        Expr::FunctionDeclaration { name, args, body, .. } => if m.stack.len() == 0 {
            Err(Fault::NoFrame)
        } else {
            Ok((m.add_function(name, Routine { args, body }), Val::Epsilon))
        },
        Expr::FunctionCall { name, params } => if m.stack.len() == 0 {
            Err(Fault::NoFrame)
        } else {
            match lookup(m.top().functions, name) {
                None => Err(Fault::UnknownFunction(name)),
                Some(f) => match eval_params(params, f.args, m, l) {
                    Err(e) => Err(e),
                    Ok((m1, values)) => if l == usize::MAX {
                        Err(Fault::TooDeep)
                    } else {
                        match bind_values(
                            m1.push_frame(m.top().functions),
                            f.args,
                            values,
                            (l + 1) as usize,
                        ) {
                            Err(e) => Err(e),
                            Ok(m2) => match eval_seq(f.body, m2, (l + 1) as usize) {
                                Err(e) => Err(e),
                                Ok((m3, v)) => if l + 1 < m3.stack.len() {
                                    Ok((m3.drop_lifetime((l + 1) as usize), v))
                                } else {
                                    Err(Fault::NoFrame)
                                },
                            },
                        }
                    },
                },
            }
        },
    }
}

/// The values of the parameters of a call, from left to right. A variable
/// that stands for a reference argument is borrowed; any other parameter is
/// evaluated. Parameters beyond the declared arguments are left out.
pub open spec fn eval_params(ps: Seq<Expr>, args: Seq<Param>, m: Machine, l: usize) -> Result<
    (Machine, Seq<Val>),
    Fault,
>
    decreases usize::MAX - l, ps,
{
    if ps.len() == 0 {
        Ok((m, Seq::empty()))
    } else {
        match eval_params(ps.drop_last(), args, m, l) {
            Err(e) => Err(e),
            Ok((m1, vs)) => if ps.len() > args.len() {
                Ok((m1, vs))
            } else {
                match ps.last() {
                    Expr::Variable(lv) if args[ps.len() - 1].reference => match m1.loc(lv) {
                        Ok(p) => Ok((m1, vs.push(Val::Reference(borrow_of(p))))),
                        Err(e) => Err(e),
                    },
                    _ => match eval(ps.last(), m1, l) {
                        Ok((m2, v)) => Ok((m2, vs.push(v))),
                        Err(e) => Err(e),
                    },
                }
            },
        }
    }
}

/// The state with each value in a new cell of the lifetime `l`, kept under
/// the name of the argument at its position.
pub open spec fn bind_values(m: Machine, args: Seq<Param>, vs: Seq<Val>, l: usize) -> Result<
    Machine,
    Fault,
>
    decreases vs.len(),
{
    if vs.len() == 0 {
        Ok(m)
    } else {
        match bind_values(m, args, vs.drop_last(), l) {
            Err(e) => Err(e),
            Ok(m1) => if vs.len() > args.len() {
                Ok(m1)
            } else {
                define(m1, args[vs.len() - 1].name, vs.last(), l)
            },
        }
    }
}

/// The evaluation of a sequence of terms, each in the state that the one
/// before it left. The value is that of the last term, and the unit value
/// for the empty sequence.
pub open spec fn eval_seq(ts: Seq<Expr>, m: Machine, l: usize) -> Evaluated
    decreases usize::MAX - l, ts,
{
    if ts.len() == 0 {
        Ok((m, Val::Epsilon))
    } else {
        match eval_seq(ts.drop_last(), m, l) {
            Err(e) => Err(e),
            Ok((m1, _)) => eval(ts.last(), m1, l),
        }
    }
}

/// Puts `value` in a new cell of the lifetime `lifetime` and keeps it under
/// `name` in the innermost frame.
pub fn define_variable(
    s: State,
    name: &String,
    value: &Value,
    lifetime: usize,
) -> (r: Result<State, Failure>)
    ensures
        outcome(r) == define(s@, name@, value@, lifetime),
{
    if s.heap.next == usize::MAX {
        return Err(Failure::StoreFull);
    }
    if s.stack.len() == 0 {
        return Err(Failure::NoFrame);
    }
    let (s2, r) = insert(s, lifetime, value);
    Ok(bind(s2, name, r))
}

/// Evaluates the parameters of a call.
pub fn evaluate_params(
    params: &Vec<Term>,
    args: &Vec<Argument>,
    s: State,
    lifetime: usize,
) -> (r: Result<(State, Vec<Value>), Failure>)
    ensures
        match r {
            Ok((s1, vs)) => eval_params(views(params@), views(args@), s@, lifetime) == Ok::<
                (Machine, Seq<Val>),
                Fault,
            >((s1@, views(vs@))),
            Err(e) => eval_params(views(params@), views(args@), s@, lifetime) == Err::<
                (Machine, Seq<Val>),
                Fault,
            >(e@),
        },
    decreases usize::MAX - lifetime, params,
{
    let ghost m0 = s@;
    let mut values: Vec<Value> = Vec::new();
    let mut st = s;
    let mut i: usize = 0;
    assert(views(params@).take(0) =~= Seq::empty());
    assert(views(values@) =~= Seq::empty());
    while i < params.len()
        invariant
            i <= params@.len(),
            m0 == s@,
            eval_params(views(params@).take(i as int), views(args@), m0, lifetime) == Ok::<
                (Machine, Seq<Val>),
                Fault,
            >((st@, views(values@))),
        decreases params@.len() - i,
    {
        assert(views(params@).take(i + 1).drop_last() =~= views(params@).take(i as int));
        assert(views(params@).take(i + 1).last() == params@[i as int]@);
        let ghost before = views(values@);
        if i < args.len() {
            let borrowed: Option<&LVal> = match &params[i] {
                Term::Variable(lv) => if args[i].reference {
                    Some(lv)
                } else {
                    None
                },
                _ => None,
            };
            match borrowed {
                Some(lv) => match loc(&st, lv) {
                    Ok(p) => {
                        let mut p = p;
                        p.owned = false;
                        values.push(Value::Reference(p));
                    },
                    Err(e) => {
                        proof {
                            lemma_eval_params_fails(
                                views(params@),
                                views(args@),
                                m0,
                                lifetime,
                                i + 1,
                            );
                        }
                        return Err(e);
                    },
                },
                None => match eval_term(&params[i], st, lifetime) {
                    Ok((s2, v)) => {
                        st = s2;
                        values.push(v);
                    },
                    Err(e) => {
                        proof {
                            lemma_eval_params_fails(
                                views(params@),
                                views(args@),
                                m0,
                                lifetime,
                                i + 1,
                            );
                        }
                        return Err(e);
                    },
                },
            }
            assert(views(values@) =~= before.push(values@[values@.len() - 1]@));
        }
        i = i + 1;
    }
    assert(views(params@).take(i as int) =~= views(params@));
    Ok((st, values))
}

/// Once the parameters up to `i` have failed, so have all of them.
pub proof fn lemma_eval_params_fails(
    ps: Seq<Expr>,
    args: Seq<Param>,
    m: Machine,
    l: usize,
    i: int,
)
    requires
        0 <= i <= ps.len(),
        eval_params(ps.take(i), args, m, l) is Err,
    ensures
        eval_params(ps, args, m, l) == eval_params(ps.take(i), args, m, l),
    decreases ps.len() - i,
{
    if i < ps.len() {
        assert(ps.take(i + 1).drop_last() =~= ps.take(i));
        lemma_eval_params_fails(ps, args, m, l, i + 1);
    } else {
        assert(ps.take(i) =~= ps);
    }
}

/// Once the terms up to `i` have failed, so have all of them.
pub proof fn lemma_eval_seq_fails(ts: Seq<Expr>, m: Machine, l: usize, i: int)
    requires
        0 <= i <= ts.len(),
        eval_seq(ts.take(i), m, l) is Err,
    ensures
        eval_seq(ts, m, l) == eval_seq(ts.take(i), m, l),
    decreases ts.len() - i,
{
    if i < ts.len() {
        assert(ts.take(i + 1).drop_last() =~= ts.take(i));
        lemma_eval_seq_fails(ts, m, l, i + 1);
    } else {
        assert(ts.take(i) =~= ts);
    }
}

/// Once the values up to `i` have failed to bind, so have all of them.
pub proof fn lemma_bind_values_fails(m: Machine, args: Seq<Param>, vs: Seq<Val>, l: usize, i: int)
    requires
        0 <= i <= vs.len(),
        bind_values(m, args, vs.take(i), l) is Err,
    ensures
        bind_values(m, args, vs, l) == bind_values(m, args, vs.take(i), l),
    decreases vs.len() - i,
{
    if i < vs.len() {
        assert(vs.take(i + 1).drop_last() =~= vs.take(i));
        lemma_bind_values_fails(m, args, vs, l, i + 1);
    } else {
        assert(vs.take(i) =~= vs);
    }
}

/// Gives each value a new cell of the lifetime `lifetime`, kept under the
/// name of the argument at its position.
pub fn bind_arguments(
    s: State,
    args: &Vec<Argument>,
    values: &Vec<Value>,
    lifetime: usize,
) -> (r: Result<State, Failure>)
    ensures
        outcome(r) == bind_values(s@, views(args@), views(values@), lifetime),
{
    let ghost m0 = s@;
    let mut st = s;
    let mut i: usize = 0;
    assert(views(values@).take(0) =~= Seq::empty());
    while i < values.len()
        invariant
            i <= values@.len(),
            m0 == s@,
            bind_values(m0, views(args@), views(values@).take(i as int), lifetime) == Ok::<
                Machine,
                Fault,
            >(st@),
        decreases values@.len() - i,
    {
        assert(views(values@).take(i + 1).drop_last() =~= views(values@).take(i as int));
        if i < args.len() {
            match define_variable(st, &args[i].name, &values[i], lifetime) {
                Ok(s2) => {
                    st = s2;
                },
                Err(e) => {
                    proof {
                        lemma_bind_values_fails(
                            m0,
                            views(args@),
                            views(values@),
                            lifetime,
                            i + 1,
                        );
                    }
                    return Err(e);
                },
            }
        }
        i = i + 1;
    }
    assert(views(values@).take(i as int) =~= views(values@));
    Ok(st)
}

/// Evaluates a sequence of terms, each in the state that the one before it
/// left.
pub fn eval_terms(ts: &Vec<Term>, s: State, lifetime: usize) -> (r: Result<(State, Value), Failure>)
    ensures
        outcome(r) == eval_seq(views(ts@), s@, lifetime),
    decreases usize::MAX - lifetime, ts,
{
    let ghost m0 = s@;
    let mut st = s;
    let mut last = Value::Epsilon;
    let mut i: usize = 0;
    assert(views(ts@).take(0) =~= Seq::empty());
    while i < ts.len()
        invariant
            i <= ts@.len(),
            m0 == s@,
            eval_seq(views(ts@).take(i as int), m0, lifetime) == Ok::<(Machine, Val), Fault>(
                (st@, last@),
            ),
        decreases ts@.len() - i,
    {
        assert(views(ts@).take(i + 1).drop_last() =~= views(ts@).take(i as int));
        match eval_term(&ts[i], st, lifetime) {
            Ok((s2, v)) => {
                st = s2;
                last = v;
            },
            Err(e) => {
                proof {
                    lemma_eval_seq_fails(views(ts@), m0, lifetime, i + 1);
                }
                return Err(e);
            },
        }
        i = i + 1;
    }
    assert(views(ts@).take(i as int) =~= views(ts@));
    Ok((st, last))
}

/// Evaluates a term in the state `s` at the lifetime `lifetime`.
pub fn eval_term(t: &Term, s: State, lifetime: usize) -> (r: Result<(State, Value), Failure>)
    ensures
        outcome(r) == eval(t@, s@, lifetime),
    decreases usize::MAX - lifetime, t,
{
    proof {
        t.lemma_model();
    }
    match t {
        Term::Value(v) => Ok((s, v.replicate())),
        Term::Variable(var) => match var.is_copyable() {
            Err(e) => Err(e),
            Ok(true) => match read(&s, var) {
                Ok(v) => Ok((s, v)),
                Err(e) => Err(e),
            },
            Ok(false) => match read(&s, var) {
                Ok(v) => match crate::state::write(s, var, &Value::Undefined) {
                    Ok(s2) => Ok((s2, v)),
                    Err(e) => Err(e),
                },
                Err(e) => Err(e),
            },
        },
        Term::Box { term } => match eval_term(term, s, lifetime) {
            Ok((s2, v)) => {
                if s2.heap.next == usize::MAX {
                    Err(Failure::StoreFull)
                } else {
                    let (s3, r) = insert(s2, 0, &v);
                    Ok((s3, Value::Reference(r)))
                }
            },
            Err(e) => Err(e),
        },
        Term::Ref { var, .. } => match loc(&s, var) {
            Ok(p) => {
                let mut p = p;
                p.owned = false;
                Ok((s, Value::Reference(p)))
            },
            Err(e) => Err(e),
        },
        Term::Let { variable, term, .. } => match eval_term(term, s, lifetime) {
            Ok((s2, v)) => match define_variable(s2, &variable.get_name(), &v, lifetime) {
                Ok(s3) => Ok((s3, Value::Epsilon)),
                Err(e) => Err(e),
            },
            Err(e) => Err(e),
        },
        Term::Assign { variable, term } => match eval_term(term, s, lifetime) {
            Ok((s2, v)) => match read(&s2, variable) {
                Ok(displaced) => match drop(s2, &displaced) {
                    Ok(s3) => match crate::state::write(s3, variable, &v) {
                        Ok(s4) => Ok((s4, Value::Epsilon)),
                        Err(e) => Err(e),
                    },
                    Err(e) => Err(e),
                },
                Err(e) => Err(e),
            },
            Err(e) => Err(e),
        },
        Term::FunctionDeclaration { name, args, body, .. } => {
            if s.stack.len() == 0 {
                Err(Failure::NoFrame)
            } else {
                let s2 = add_function(
                    s,
                    name.clone(),
                    replicate_arguments(args),
                    replicate_terms(body),
                );
                Ok((s2, Value::Epsilon))
            }
        },
        Term::FunctionCall { name, params } => {
            if s.stack.len() == 0 {
                return Err(Failure::NoFrame);
            }
            let found = match s.top().functions.get(name) {
                Some(def) => Some(def.replicate()),
                None => None,
            };
            match found {
                None => Err(Failure::UnknownFunction(name.clone())),
                Some(def) => {
                    let functions = s.top().functions.replicate();
                    match evaluate_params(params, &def.args, s, lifetime) {
                        Err(e) => Err(e),
                        Ok((s1, values)) => {
                            if lifetime == usize::MAX {
                                return Err(Failure::TooDeep);
                            }
                            let ghost m1 = s1@;
                            let mut s1 = s1;
                            s1.stack.push(StackFrame { locations: Table::new(), functions });
                            assert(s1@.stack =~= m1.push_frame(functions@).stack);
                            match bind_arguments(s1, &def.args, &values, lifetime + 1) {
                                Err(e) => Err(e),
                                Ok(s2) => match eval_terms(&def.body, s2, lifetime + 1) {
                                    Err(e) => Err(e),
                                    Ok((s3, v)) => {
                                        if lifetime + 1 < s3.stack.len() {
                                            Ok((drop_lifetime(s3, lifetime + 1), v))
                                        } else {
                                            Err(Failure::NoFrame)
                                        }
                                    },
                                },
                            }
                        },
                    }
                },
            }
        },
    }
}

/// What can be evaluated: an evaluation takes the state, and gives the state
/// that follows with what the evaluated thing has become.
pub trait Evaluate: View + Sized {
    /// What can be evaluated at all.
    spec fn ready(v: Self::V) -> bool;

    /// What an evaluation of `v` gives.
    spec fn evaluated(v: Self::V, m: Machine, l: usize) -> Result<(Machine, Self::V), Fault>;

    /// What an evaluation leaves of `v` itself.
    spec fn remainder(v: Self::V) -> Self::V;

    fn evaluate(&mut self, s: State, lifetime: usize) -> (r: Result<(State, Self), Failure>)
        requires
            Self::ready(old(self)@),
        ensures
            outcome(r) == Self::evaluated(old(self)@, s@, lifetime),
            final(self)@ == Self::remainder(old(self)@),
    ;
}

impl Evaluate for Value {
    open spec fn ready(v: Val) -> bool {
        true
    }

    open spec fn evaluated(v: Val, m: Machine, l: usize) -> Result<(Machine, Val), Fault> {
        Ok((m, v))
    }

    open spec fn remainder(v: Val) -> Val {
        v
    }

    fn evaluate(&mut self, s: State, lifetime: usize) -> (r: Result<(State, Value), Failure>) {
        Ok((s, self.replicate()))
    }
}

impl Evaluate for LVal {
    open spec fn ready(v: Place) -> bool {
        true
    }

    open spec fn evaluated(v: Place, m: Machine, l: usize) -> Result<(Machine, Place), Fault> {
        Ok((m, v))
    }

    open spec fn remainder(v: Place) -> Place {
        v
    }

    fn evaluate(&mut self, s: State, lifetime: usize) -> (r: Result<(State, LVal), Failure>) {
        Ok((s, self.replicate()))
    }
}

impl Evaluate for Term {
    open spec fn ready(v: Expr) -> bool {
        true
    }

    open spec fn evaluated(v: Expr, m: Machine, l: usize) -> Result<(Machine, Expr), Fault> {
        match eval(v, m, l) {
            Ok((m2, value)) => Ok((m2, Expr::Value(value))),
            Err(e) => Err(e),
        }
    }

    open spec fn remainder(v: Expr) -> Expr {
        v
    }

    fn evaluate(&mut self, s: State, lifetime: usize) -> (r: Result<(State, Term), Failure>) {
        match eval_term(self, s, lifetime) {
            Ok((s2, v)) => Ok((s2, Term::Value(v))),
            Err(e) => Err(e),
        }
    }
}

impl Evaluate for Program {
    open spec fn ready(v: Seq<Expr>) -> bool {
        v.len() > 0
    }

    open spec fn evaluated(v: Seq<Expr>, m: Machine, l: usize) -> Result<
        (Machine, Seq<Expr>),
        Fault,
    > {
        match eval(v[0], m, l) {
            Ok((m2, _)) => Ok((m2, v.drop_first())),
            Err(e) => Err(e),
        }
    }

    open spec fn remainder(v: Seq<Expr>) -> Seq<Expr> {
        v.drop_first()
    }

    fn evaluate(&mut self, s: State, lifetime: usize) -> (r: Result<(State, Program), Failure>) {
        let first = self.terms.remove(0);
        assert(views(self.terms@) =~= views(old(self).terms@).drop_first());
        match eval_term(&first, s, lifetime) {
            Ok((s2, _)) => Ok((s2, Program { terms: replicate_terms(&self.terms) })),
            Err(e) => Err(e),
        }
    }
}

} // verus!
