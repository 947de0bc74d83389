//! The type checker: what each term needs of the type environment, what it
//! leaves of it, and the type of its result.
use crate::ast::{
    replicate_arguments, views, Argument, Expr, LVal, Param, Place, Program, Term, Val, Value,
};
use crate::constants::{outcome, Failure, Fault, TypeError, TypeFault};
use crate::table::{put, Replicate};
use crate::typing::{
    declared, lemma_rooted, lemma_typed_bound, moved, move_var, mutable_checked, mutable_place,
    place_type, read_blocked, read_prohibited, root, root_of, shape_compatible, slot_of, type_of,
    write_blocked,
    write_prohibited, written, Gamma, Slot, Ty, Type, TypeEnviroment,
};
use vstd::prelude::*;

verus! {

/// What a check gives: the environment after the term and the type of the
/// term, or the reason why the term is refused.
pub type Checked = Result<(Gamma, Ty), Fault>;

/// The type of a value. Only numbers and the unit value can be written in a
/// program.
pub open spec fn check_value(v: Val, g: Gamma) -> Checked {
    match v {
        Val::NumericLiteral(_) => Ok((g, Ty::Numeric)),
        Val::Epsilon => Ok((g, Ty::Epsilon)),
        _ => Err(Fault::InvalidValue),
    }
}

/// The type of a place. The environment stays as it is.
pub open spec fn check_place(lv: Place, g: Gamma) -> Checked {
    match place_type(g, lv) {
        Ok(t) => Ok((g, t)),
        Err(e) => Err(e),
    }
}

/// The first name that occurs again later in the sequence.
pub open spec fn first_duplicate(names: Seq<Seq<char>>) -> Option<Seq<char>>
    decreases names.len(),
{
    if names.len() == 0 {
        None
    } else if names.drop_first().contains(names[0]) {
        Some(names[0])
    } else {
        first_duplicate(names.drop_first())
    }
}

/// The names of the arguments, in order.
pub open spec fn argument_names(args: Seq<Param>) -> Seq<Seq<char>> {
    Seq::new(args.len(), |i: int| args[i].name)
}

/// The types of the arguments, in order.
pub open spec fn argument_types(args: Seq<Param>) -> Seq<Ty> {
    Seq::new(args.len(), |i: int| args[i].ty)
}

/// The name that stands for what a reference argument borrows.
pub open spec fn backing_name(f: Seq<char>, arg: Seq<char>) -> Seq<char> {
    f + seq!['-'] + arg
}

/// The environment with one argument of the function `f` bound. An argument
/// passed by value has its declared type. One passed by reference is a
/// borrow of a backing name, which has the declared type.
pub open spec fn bind_argument(g: Gamma, f: Seq<char>, a: Param, l: usize) -> Gamma {
    if !a.reference {
        put(g, a.name, Slot { value: a.ty, lifetime: l })
    } else {
        let backing = backing_name(f, a.name);
        put(
            put(g, backing, Slot { value: a.ty, lifetime: l }),
            a.name,
            Slot {
                value: Ty::Reference { var: Place::variable(backing), mutable: a.mutable },
                lifetime: l,
            },
        )
    }
}

/// The environment with the arguments of the function `f` bound, in order.
pub open spec fn with_arguments(g: Gamma, f: Seq<char>, args: Seq<Param>, l: usize) -> Gamma
    decreases args.len(),
{
    if args.len() == 0 {
        g
    } else {
        bind_argument(with_arguments(g, f, args.drop_last(), l), f, args.last(), l)
    }
}

/// The type of a function with the given arguments and return type.
pub open spec fn function_type(args: Seq<Param>, ty: Option<Ty>) -> Ty {
    Ty::Function {
        args: argument_types(args),
        ret: match ty {
            Some(t) => Some(Box::new(t)),
            None => None,
        },
    }
}

/// The check of a term in the environment `g` at the lifetime `l`. Gives the
/// term with the annotations that the check wrote, as far as it went, and
/// what the check found.
pub open spec fn check(t: Expr, g: Gamma, l: usize) -> (Expr, Checked)
    decreases t,
{
    match t {
        Expr::Value(v) => (t, check_value(v, g)),
        Expr::Variable(lv) => match place_type(g, lv) {
            Err(e) => (t, Err(e)),
            Ok(ty) => {
                let marked = Expr::Variable(lv.annotated(Some(ty.copyable())));
                if ty.copyable() {
                    if read_blocked(g, lv) {
                        (marked, Err(Fault::Type(TypeFault::CopyNotReadable(lv.name()))))
                    } else {
                        (marked, Ok((g, ty)))
                    }
                } else {
                    if write_blocked(g, lv) {
                        (marked, Err(Fault::Type(TypeFault::MoveNotWritable(lv.name()))))
                    } else {
                        match moved(g, lv) {
                            Ok(g3) => (marked, Ok((g3, ty))),
                            Err(e) => (marked, Err(e)),
                        }
                    }
                }
            },
        },
        Expr::Box { term } => {
            let (inner, r) = check(*term, g, l);
            (
                Expr::Box { term: Box::new(inner) },
                match r {
                    Ok((g2, ty)) => Ok((g2, Ty::Box(Box::new(ty)))),
                    Err(e) => Err(e),
                },
            )
        },
        Expr::Ref { mutable, var } => (t, check_borrow(mutable, var, g)),
        Expr::Let { mutable, variable, term } => {
            if declared(g, variable.name()) {
                (t, Err(Fault::Type(TypeFault::LetAlreadyDefined(variable.name()))))
            } else {
                let (inner, r) = check(*term, g, l);
                (
                    Expr::Let { mutable, variable, term: Box::new(inner) },
                    match r {
                        Ok((g2, ty)) => if ty is Epsilon {
                            Err(Fault::Type(TypeFault::LetExprNoReturn(inner)))
                        } else {
                            Ok(
                                (
                                    put(g2, variable.name(), Slot { value: ty, lifetime: l }),
                                    Ty::Epsilon,
                                ),
                            )
                        },
                        Err(e) => Err(e),
                    },
                )
            }
        },
        Expr::Assign { variable, term } => match place_type(g, variable) {
            Err(e) => (t, Err(e)),
            Ok(t1) => {
                let (inner, r) = check(*term, g, l);
                (
                    Expr::Assign { variable, term: Box::new(inner) },
                    match r {
                        Ok((g2, t2)) => check_assignment(variable, t1, t2, g2, l),
                        Err(e) => Err(e),
                    },
                )
            },
        },
        Expr::FunctionCall { name, params } => match slot_of(g, name) {
            Ok(Slot { value: Ty::Function { args, ret }, .. }) => {
                if args.len() != params.len() {
                    (
                        t,
                        Err(
                            Fault::Type(
                                TypeFault::FunctionCallIncompatableArgumentCount(
                                    args.len() as usize,
                                    params.len() as usize,
                                ),
                            ),
                        ),
                    )
                } else {
                    let (done, r) = check_args(params, args, g, l);
                    (
                        Expr::FunctionCall { name, params: done },
                        match r {
                            Ok(g2) => Ok(
                                (
                                    g2,
                                    match ret {
                                        Some(ty) => *ty,
                                        None => Ty::Epsilon,
                                    },
                                ),
                            ),
                            Err(e) => Err(e),
                        },
                    )
                }
            },
            _ => (t, Err(Fault::Type(TypeFault::FunctionNotDefined(name)))),
        },
        Expr::FunctionDeclaration { name, args, body, ty } => match first_duplicate(
            argument_names(args),
        ) {
            Some(dup) => (t, Err(Fault::Type(TypeFault::FunctionDeclDupArg(dup)))),
            None => {
                let g2 = put(g, name, Slot { value: function_type(args, ty), lifetime: l });
                if l == usize::MAX {
                    (t, Err(Fault::TooDeep))
                } else {
                    let (done, r) = check_seq(
                        body,
                        with_arguments(g2, name, args, l),
                        (l + 1) as usize,
                    );
                    (
                        Expr::FunctionDeclaration { name, args, body: done, ty },
                        match r {
                            Ok((_, found)) => match ty {
                                Some(declared) => if found != declared {
                                    Err(
                                        Fault::Type(
                                            TypeFault::FunctionUnexpectedReturn(declared, found),
                                        ),
                                    )
                                } else {
                                    Ok((g2, Ty::Epsilon))
                                },
                                None => Ok((g2, Ty::Epsilon)),
                            },
                            Err(e) => Err(e),
                        },
                    )
                }
            },
        },
    }
}

/// The type of a borrow of `var`, which must have a root. A mutable borrow
/// needs a place that nothing borrows and that is mutable; a shared borrow
/// needs a place that nothing borrows mutably.
pub open spec fn check_borrow(mutable: bool, var: Place, g: Gamma) -> Checked {
    if root_of(g, var) is Err {
        Err(Fault::Unbound(var.name()))
    } else if mutable {
        if write_blocked(g, var) {
            Err(Fault::Type(TypeFault::MutrefAlreadyBorrowedImmut(var.name())))
        } else {
            match mutable_place(g, var, g.len()) {
                Ok(true) => Ok((g, Ty::Reference { var: var.erased(), mutable: true })),
                Ok(false) => Err(Fault::Type(TypeFault::MutrefImmut(var.name()))),
                Err(e) => Err(e),
            }
        }
    } else {
        if read_blocked(g, var) {
            Err(Fault::Type(TypeFault::RefAlreadyBorrowedMut(var.name())))
        } else {
            Ok((g, Ty::Reference { var: var.erased(), mutable: false }))
        }
    }
}

/// The second half of the check of an assignment: `t1` is the type of the
/// place and `t2` the type of the value, found in `g2`.
pub open spec fn check_assignment(variable: Place, t1: Ty, t2: Ty, g2: Gamma, l: usize) -> Checked {
    if !t1.shape_compatible(t2) {
        Err(Fault::Type(TypeFault::IncompatibleTypes(t1, t2)))
    } else {
        match t2.within(g2, l) {
            Err(e) => Err(e),
            Ok(false) => Err(Fault::Type(TypeFault::NotWithinScope(t2.text()))),
            Ok(true) => match written(g2, variable, t2, g2.len()) {
                Err(e) => Err(e),
                Ok(g3) => if write_blocked(g3, variable) {
                    Err(Fault::Type(TypeFault::AssignBorrowed(variable.name())))
                } else {
                    Ok((g3, Ty::Epsilon))
                },
            },
        }
    }
}

/// The check of the parameters of a call against the types of the
/// arguments, from left to right. After a failure the remaining parameters
/// stay as they are.
pub open spec fn check_args(
    ps: Seq<Expr>,
    args: Seq<Ty>,
    g: Gamma,
    l: usize,
) -> (Seq<Expr>, Result<Gamma, Fault>)
    decreases ps,
{
    if ps.len() == 0 {
        (ps, Ok(g))
    } else {
        let (done, r) = check_args(ps.drop_last(), args, g, l);
        match r {
            Err(e) => (done.push(ps.last()), Err(e)),
            Ok(g1) => {
                let (p, r1) = check(ps.last(), g1, l);
                (
                    done.push(p),
                    match r1 {
                        Err(e) => Err(e),
                        Ok((g2, ty)) => {
                            let arg = args[ps.len() - 1];
                            if arg.shape_compatible(ty) {
                                Ok(g2)
                            } else {
                                Err(
                                    Fault::Type(
                                        TypeFault::FunctionCallIncompatableArgumentType(arg, ty),
                                    ),
                                )
                            }
                        },
                    },
                )
            },
        }
    }
}

/// The check of a sequence of terms, each in the environment that the one
/// before it left. The type is that of the last term, and the unit type for
/// the empty sequence. After a failure the remaining terms stay as they are.
pub open spec fn check_seq(ts: Seq<Expr>, g: Gamma, l: usize) -> (Seq<Expr>, Checked)
    decreases ts,
{
    if ts.len() == 0 {
        (ts, Ok((g, Ty::Epsilon)))
    } else {
        let (done, r) = check_seq(ts.drop_last(), g, l);
        match r {
            Err(e) => (done.push(ts.last()), Err(e)),
            Ok((g1, _)) => {
                let (p, r1) = check(ts.last(), g1, l);
                (done.push(p), r1)
            },
        }
    }
}

/// The first argument name that a later argument has too.
pub fn find_duplicate(args: &Vec<Argument>) -> (r: Option<String>)
    ensures
        match r {
            Some(s) => first_duplicate(argument_names(views(args@))) == Some(s@),
            None => first_duplicate(argument_names(views(args@))) is None,
        },
{
    let ghost names = argument_names(views(args@));
    let mut i: usize = 0;
    assert(names.skip(0) =~= names);
    while i < args.len()
        invariant
            i <= args@.len(),
            names == argument_names(views(args@)),
            first_duplicate(names) == first_duplicate(names.skip(i as int)),
        decreases args@.len() - i,
    {
        let ghost rest = names.skip(i as int);
        assert(rest.drop_first() =~= names.skip(i + 1));
        assert(rest[0] == args@[i as int].name@);
        let mut j: usize = i + 1;
        while j < args.len()
            invariant
                i < j <= args@.len(),
                names == argument_names(views(args@)),
                first_duplicate(names) == first_duplicate(names.skip(i as int)),
                names.skip(i as int).drop_first() == names.skip(i + 1),
                forall|k: int| i < k < j ==> names[k] != names[i as int],
            decreases args@.len() - j,
        {
            if args[j].name == args[i].name {
                assert(names.skip(i + 1)[j - i - 1] == names[i as int]);
                assert(names.skip(i + 1).contains(names[i as int]));
                return Some(args[i].name.clone());
            }
            j = j + 1;
        }
        assert(!names.skip(i + 1).contains(names[i as int])) by {
            let later = names.skip(i + 1);
            if later.contains(names[i as int]) {
                let k = choose|k: int| 0 <= k < later.len() && later[k] == names[i as int];
                assert(names[k + i + 1] == names[i as int]);
            }
        }
        i = i + 1;
    }
    assert(names.skip(i as int).len() == 0);
    None
}

/// The types of the arguments, in order.
pub fn argument_type_list(args: &Vec<Argument>) -> (r: Vec<Type>)
    ensures
        views(r@) == argument_types(views(args@)),
{
    let mut out: Vec<Type> = Vec::new();
    let mut i: usize = 0;
    while i < args.len()
        invariant
            i <= args@.len(),
            out@.len() == i,
            forall|j: int| 0 <= j < i ==> (#[trigger] out@[j])@ == args@[j].ty@,
        decreases args@.len() - i,
    {
        out.push(args[i].ty.replicate());
        i = i + 1;
    }
    assert(views(out@) =~= argument_types(views(args@)));
    out
}

/// The name that stands for what the reference argument `arg` of the
/// function `f` borrows.
pub fn backing(f: &String, arg: &String) -> (r: String)
    ensures
        r@ == backing_name(f@, arg@),
{
    let mut s = f.clone();
    s.append("-");
    s.append(arg.as_str());
    proof {
        reveal_strlit("-");
        assert("-"@ =~= seq!['-']);
    }
    s
}

/// Binds the arguments of the function `f`, in order.
pub fn bind_arguments(
    gamma: TypeEnviroment,
    f: &String,
    args: &Vec<Argument>,
    lifetime: usize,
) -> (r: TypeEnviroment)
    ensures
        r@ == with_arguments(gamma@, f@, views(args@), lifetime),
{
    let ghost g0 = gamma@;
    let mut g = gamma;
    let mut i: usize = 0;
    assert(views(args@).take(0) =~= Seq::empty());
    while i < args.len()
        invariant
            i <= args@.len(),
            g@ == with_arguments(g0, f@, views(args@).take(i as int), lifetime),
        decreases args@.len() - i,
    {
        assert(views(args@).take(i + 1).drop_last() =~= views(args@).take(i as int));
        let a = &args[i];
        if !a.reference {
            g.insert(a.name.clone(), a.ty.replicate(), lifetime);
        } else {
            let b = backing(f, &a.name);
            g.insert(b.clone(), a.ty.replicate(), lifetime);
            g.insert(
                a.name.clone(),
                Type::Reference {
                    var: LVal::Variable { name: b, copyable: Some(a.ty.copyable()) },
                    mutable: a.mutable,
                },
                lifetime,
            );
        }
        i = i + 1;
    }
    assert(views(args@).take(i as int) =~= views(args@));
    g
}

/// Checks a borrow of `var`.
pub fn check_reference(
    mutable: bool,
    var: &LVal,
    gamma: TypeEnviroment,
) -> (r: Result<(TypeEnviroment, Type), Failure>)
    ensures
        outcome(r) == check_borrow(mutable, var@, gamma@),
{
    let name = var.get_name();
    proof {
        lemma_rooted(gamma@, var@);
    }
    match root(&gamma, var.replicate()) {
        Err(e) => {
            return Err(e);
        },
        Ok(_) => {},
    }
    if mutable {
        if write_prohibited(&gamma, var.replicate()) {
            return Err(Failure::Type(TypeError::MutrefAlreadyBorrowedImmut(name)));
        }
        match mutable_checked(&gamma, var) {
            Ok(true) => Ok((gamma, Type::Reference { var: var.replicate(), mutable: true })),
            Ok(false) => Err(Failure::Type(TypeError::MutrefImmut(name))),
            Err(e) => Err(e),
        }
    } else {
        if read_prohibited(&gamma, var.replicate()) {
            return Err(Failure::Type(TypeError::RefAlreadyBorrowedMut(name)));
        }
        Ok((gamma, Type::Reference { var: var.replicate(), mutable: false }))
    }
}

/// The second half of the check of an assignment.
pub fn check_assign(
    variable: &LVal,
    t1: Type,
    t2: Type,
    g2: TypeEnviroment,
    lifetime: usize,
) -> (r: Result<(TypeEnviroment, Type), Failure>)
    ensures
        outcome(r) == check_assignment(variable@, t1@, t2@, g2@, lifetime),
{
    if !shape_compatible(&g2, &t1, &t2) {
        return Err(Failure::Type(TypeError::IncompatibleTypes(t1, t2)));
    }
    match t2.within_checked(&g2, lifetime) {
        Err(e) => Err(e),
        Ok(false) => Err(Failure::Type(TypeError::NotWithinScope(t2.to_string()))),
        Ok(true) => match crate::typing::write(g2, variable.replicate(), t2) {
            Err(e) => Err(e),
            Ok(g3) => {
                let name = variable.get_name();
                if crate::typing::is_borrowed(&g3, &name, false) || crate::typing::is_borrowed(
                    &g3,
                    &name,
                    true,
                ) {
                    Err(Failure::Type(TypeError::AssignBorrowed(name)))
                } else {
                    Ok((g3, Type::Epsilon))
                }
            },
        },
    }
}

/// Checks the parameters of a call against the types of the arguments.
pub fn check_params(
    params: &Vec<Term>,
    args: &Vec<Type>,
    gamma: TypeEnviroment,
    lifetime: usize,
) -> (r: (Vec<Term>, Result<TypeEnviroment, Failure>))
    requires
        args@.len() == params@.len(),
    ensures
        (views(r.0@), outcome(r.1)) == check_args(
            views(params@),
            views(args@),
            gamma@,
            lifetime,
        ),
    decreases params,
{
    let ghost g0 = gamma@;
    let mut out: Vec<Term> = Vec::new();
    let mut st: Result<TypeEnviroment, Failure> = Ok(gamma);
    let mut i: usize = 0;
    assert(views(params@).take(0) =~= Seq::empty());
    assert(views(out@) =~= Seq::empty());
    while i < params.len()
        invariant
            i <= params@.len(),
            out@.len() == i,
            args@.len() == params@.len(),
            (views(out@), outcome(st)) == check_args(
                views(params@).take(i as int),
                views(args@),
                g0,
                lifetime,
            ),
        decreases params@.len() - i,
    {
        assert(views(params@).take(i + 1).drop_last() =~= views(params@).take(i as int));
        let ghost before = out@;
        let cur = st;
        match cur {
            Err(e) => {
                out.push(params[i].replicate());
                st = Err(e);
            },
            Ok(g1) => {
                let (p, r1) = check_term(&params[i], g1, lifetime);
                out.push(p);
                st =
                match r1 {
                    Err(e) => Err(e),
                    Ok((g2, ty)) => {
                        if shape_compatible(&g2, &args[i], &ty) {
                            Ok(g2)
                        } else {
                            Err(
                                Failure::Type(
                                    TypeError::FunctionCallIncompatableArgumentType(
                                        args[i].replicate(),
                                        ty,
                                    ),
                                ),
                            )
                        }
                    },
                };
            },
        }
        assert(views(out@) =~= views(before).push(out@[i as int]@));
        i = i + 1;
    }
    assert(views(params@).take(i as int) =~= views(params@));
    (out, st)
}

/// Checks a sequence of terms, each in the environment that the one before
/// it left.
pub fn check_terms(
    ts: &Vec<Term>,
    gamma: TypeEnviroment,
    lifetime: usize,
) -> (r: (Vec<Term>, Result<(TypeEnviroment, Type), Failure>))
    ensures
        (views(r.0@), outcome(r.1)) == check_seq(views(ts@), gamma@, lifetime),
    decreases ts,
{
    let ghost g0 = gamma@;
    let mut out: Vec<Term> = Vec::new();
    let mut st: Result<(TypeEnviroment, Type), Failure> = Ok((gamma, Type::Epsilon));
    let mut i: usize = 0;
    assert(views(ts@).take(0) =~= Seq::empty());
    assert(views(out@) =~= Seq::empty());
    while i < ts.len()
        invariant
            i <= ts@.len(),
            out@.len() == i,
            (views(out@), outcome(st)) == check_seq(views(ts@).take(i as int), g0, lifetime),
        decreases ts@.len() - i,
    {
        assert(views(ts@).take(i + 1).drop_last() =~= views(ts@).take(i as int));
        let ghost before = out@;
        let cur = st;
        match cur {
            Err(e) => {
                out.push(ts[i].replicate());
                st = Err(e);
            },
            Ok((g1, _)) => {
                let (p, r1) = check_term(&ts[i], g1, lifetime);
                out.push(p);
                st = r1;
            },
        }
        assert(views(out@) =~= views(before).push(out@[i as int]@));
        i = i + 1;
    }
    assert(views(ts@).take(i as int) =~= views(ts@));
    (out, st)
}

/// Checks a term in the environment `gamma` at the lifetime `lifetime`.
/// Gives the term with the annotations that the check wrote, and what the
/// check found.
pub fn check_term(
    t: &Term,
    gamma: TypeEnviroment,
    lifetime: usize,
) -> (r: (Term, Result<(TypeEnviroment, Type), Failure>))
    ensures
        (r.0@, outcome(r.1)) == check(t@, gamma@, lifetime),
    decreases t,
{
    proof {
        t.lemma_model();
    }
    match t {
        Term::Value(v) => {
            let r = match v {
                Value::NumericLiteral(_) => Ok((gamma, Type::Numeric)),
                Value::Epsilon => Ok((gamma, Type::Epsilon)),
                _ => Err(Failure::InvalidValue),
            };
            (t.replicate(), r)
        },
        Term::Variable(var) => {
            proof {
                lemma_typed_bound(gamma@, var@);
                lemma_rooted(gamma@, var@);
            }
            match type_of(&gamma, var) {
                Err(e) => (t.replicate(), Err(e)),
                Ok(ty) => {
                    let c = ty.copyable();
                    let marked = Term::Variable(var.with_copyable(c));
                    let name = var.get_name();
                    if c {
                        if read_prohibited(&gamma, var.replicate()) {
                            (marked, Err(Failure::Type(TypeError::CopyNotReadable(name))))
                        } else {
                            (marked, Ok((gamma, ty)))
                        }
                    } else {
                        if write_prohibited(&gamma, var.replicate()) {
                            (marked, Err(Failure::Type(TypeError::MoveNotWritable(name))))
                        } else {
                            match move_var(gamma, var.replicate(), lifetime) {
                                Ok(g3) => (marked, Ok((g3, ty))),
                                Err(e) => (marked, Err(e)),
                            }
                        }
                    }
                },
            }
        },
        Term::Box { term } => {
            let (inner, r) = check_term(term, gamma, lifetime);
            (
                Term::Box { term: Box::new(inner) },
                match r {
                    Ok((g2, ty)) => Ok((g2, Type::Box(Box::new(ty)))),
                    Err(e) => Err(e),
                },
            )
        },
        Term::Ref { mutable, var } => (t.replicate(), check_reference(*mutable, var, gamma)),
        Term::Let { mutable, variable, term } => {
            let name = variable.get_name();
            if gamma.declares(&name) {
                (t.replicate(), Err(Failure::Type(TypeError::LetAlreadyDefined(name))))
            } else {
                let (inner, r) = check_term(term, gamma, lifetime);
                let res = match r {
                    Ok((g2, ty)) => {
                        let unit = match &ty {
                            Type::Epsilon => true,
                            _ => false,
                        };
                        if unit {
                            Err(Failure::Type(TypeError::LetExprNoReturn(inner.replicate())))
                        } else {
                            let mut g2 = g2;
                            g2.insert(name, ty, lifetime);
                            Ok((g2, Type::Epsilon))
                        }
                    },
                    Err(e) => Err(e),
                };
                (
                    Term::Let {
                        mutable: *mutable,
                        variable: variable.replicate(),
                        term: Box::new(inner),
                    },
                    res,
                )
            }
        },
        Term::Assign { variable, term } => {
            match type_of(&gamma, variable) {
                Err(e) => (t.replicate(), Err(e)),
                Ok(t1) => {
                    let (inner, r) = check_term(term, gamma, lifetime);
                    let res = match r {
                        Ok((g2, t2)) => check_assign(variable, t1, t2, g2, lifetime),
                        Err(e) => Err(e),
                    };
                    (Term::Assign { variable: variable.replicate(), term: Box::new(inner) }, res)
                },
            }
        },
        Term::FunctionCall { name, params } => {
            match gamma.get(name) {
                Ok(slot) => {
                    let fty = slot.value;
                    proof {
                        fty.lemma_model();
                    }
                    match fty {
                        Type::Function { args, ret } => {
                            if args.len() != params.len() {
                                (
                                    t.replicate(),
                                    Err(
                                        Failure::Type(
                                            TypeError::FunctionCallIncompatableArgumentCount(
                                                args.len(),
                                                params.len(),
                                            ),
                                        ),
                                    ),
                                )
                            } else {
                                let (done, r) = check_params(params, &args, gamma, lifetime);
                                let res = match r {
                                    Ok(g2) => Ok(
                                        (
                                            g2,
                                            match ret {
                                                Some(ty) => *ty,
                                                None => Type::Epsilon,
                                            },
                                        ),
                                    ),
                                    Err(e) => Err(e),
                                };
                                let out = Term::FunctionCall { name: name.clone(), params: done };
                                proof {
                                    out.lemma_model();
                                }
                                (out, res)
                            }
                        },
                        _ => (
                            t.replicate(),
                            Err(Failure::Type(TypeError::FunctionNotDefined(name.clone()))),
                        ),
                    }
                },
                Err(_) => (
                    t.replicate(),
                    Err(Failure::Type(TypeError::FunctionNotDefined(name.clone()))),
                ),
            }
        },
        Term::FunctionDeclaration { name, args, body, ty } => {
            match find_duplicate(args) {
                Some(dup) => (
                    t.replicate(),
                    Err(Failure::Type(TypeError::FunctionDeclDupArg(dup))),
                ),
                None => {
                    let mut g2 = gamma;
                    let fty = Type::Function {
                        args: argument_type_list(args),
                        ret: match ty {
                            Some(x) => Some(Box::new(x.replicate())),
                            None => None,
                        },
                    };
                    proof {
                        fty.lemma_model();
                    }
                    g2.insert(name.clone(), fty, lifetime);
                    if lifetime == usize::MAX {
                        (t.replicate(), Err(Failure::TooDeep))
                    } else {
                        let g_block = bind_arguments(g2.replicate(), name, args, lifetime);
                        let (done, r) = check_terms(body, g_block, lifetime + 1);
                        let res = match r {
                            Ok((_, found)) => match ty {
                                Some(declared) => if !found.same(declared) {
                                    Err(
                                        Failure::Type(
                                            TypeError::FunctionUnexpectedReturn(
                                                declared.replicate(),
                                                found,
                                            ),
                                        ),
                                    )
                                } else {
                                    Ok((g2, Type::Epsilon))
                                },
                                None => Ok((g2, Type::Epsilon)),
                            },
                            Err(e) => Err(e),
                        };
                        let out = Term::FunctionDeclaration {
                            name: name.clone(),
                            args: replicate_arguments(args),
                            body: done,
                            ty: match ty {
                                Some(x) => Some(x.replicate()),
                                None => None,
                            },
                        };
                        proof {
                            out.lemma_model();
                        }
                        (out, res)
                    }
                },
            }
        },
    }
}

/// What can be type-checked: a check reads the type environment, may write
/// annotations on what it checks, and gives the environment that follows
/// with the type found.
pub trait TypeCheck: View + Sized {
    /// What a check leaves of `v` and what it finds.
    spec fn checked(v: Self::V, g: Gamma, l: usize) -> (Self::V, Checked);

    fn type_check(
        &mut self,
        gamma: TypeEnviroment,
        lifetime: usize,
    ) -> (r: Result<(TypeEnviroment, Type), Failure>)
        ensures
            (final(self)@, outcome(r)) == Self::checked(old(self)@, gamma@, lifetime),
    ;
}

impl TypeCheck for Value {
    open spec fn checked(v: Val, g: Gamma, l: usize) -> (Val, Checked) {
        (v, check_value(v, g))
    }

    fn type_check(
        &mut self,
        gamma: TypeEnviroment,
        lifetime: usize,
    ) -> (r: Result<(TypeEnviroment, Type), Failure>) {
        match self {
            Value::NumericLiteral(_) => Ok((gamma, Type::Numeric)),
            Value::Epsilon => Ok((gamma, Type::Epsilon)),
            _ => Err(Failure::InvalidValue),
        }
    }
}

impl TypeCheck for LVal {
    open spec fn checked(v: Place, g: Gamma, l: usize) -> (Place, Checked) {
        (v, check_place(v, g))
    }

    fn type_check(
        &mut self,
        gamma: TypeEnviroment,
        lifetime: usize,
    ) -> (r: Result<(TypeEnviroment, Type), Failure>) {
        match type_of(&gamma, self) {
            Ok(t) => Ok((gamma, t)),
            Err(e) => Err(e),
        }
    }
}

impl TypeCheck for Term {
    open spec fn checked(v: Expr, g: Gamma, l: usize) -> (Expr, Checked) {
        check(v, g, l)
    }

    fn type_check(
        &mut self,
        gamma: TypeEnviroment,
        lifetime: usize,
    ) -> (r: Result<(TypeEnviroment, Type), Failure>) {
        let (annotated, r) = check_term(self, gamma, lifetime);
        *self = annotated;
        r
    }
}

impl TypeCheck for Program {
    open spec fn checked(v: Seq<Expr>, g: Gamma, l: usize) -> (Seq<Expr>, Checked) {
        check_seq(v, g, l)
    }

    fn type_check(
        &mut self,
        gamma: TypeEnviroment,
        lifetime: usize,
    ) -> (r: Result<(TypeEnviroment, Type), Failure>) {
        let (annotated, r) = check_terms(&self.terms, gamma, lifetime);
        self.terms = annotated;
        r
    }
}

} // verus!
