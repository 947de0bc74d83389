//! Consistency between the type environment and the state, checked before
//! and after each step of a program.
use crate::ast::{views, Expr, LVal, Place, Term, Val, Value};
use crate::constants::{verdict, Failure, Fault};
use crate::reduction::{eval, eval_term};
use crate::state::{holds_name, Heap, Machine, State};
use crate::table::Replicate;
use crate::typecheck::{check, check_term};
use crate::typing::{domain, holds, partial_slot, slot_of, Gamma, Ty, Type, TypeEnviroment};
use vstd::prelude::*;

verus! {

/// Whether no two cells hold the same value, numbers apart: each reference
/// is held by one cell, and so is the undefined value.
pub open spec fn store_valid(h: Heap) -> bool {
    forall|i: int, j: int|
        0 <= i < j < h.cells.len() ==> (#[trigger] h.cells[i]).1.value is NumericLiteral
            || h.cells[i].1.value != (#[trigger] h.cells[j]).1.value
}

/// `acc`, and `v` behind it unless `acc` holds it already.
pub open spec fn add_value(acc: Seq<Val>, v: Val) -> Seq<Val> {
    if acc.contains(v) {
        acc
    } else {
        acc.push(v)
    }
}

/// `acc`, and behind it the values that stand in `t` where a box, an
/// assignment or a function body holds them: `t` itself where it is a
/// value, and whatever `t` boxes, assigns or declares.
pub open spec fn held(t: Expr, acc: Seq<Val>) -> Seq<Val>
    decreases t,
{
    match t {
        Expr::Value(v) => add_value(acc, v),
        Expr::Box { term } => held(*term, acc),
        Expr::Assign { term, .. } => held(*term, acc),
        Expr::FunctionDeclaration { body, .. } => held_all(body, acc),
        _ => acc,
    }
}

/// `held`, over a sequence of terms.
pub open spec fn held_all(ts: Seq<Expr>, acc: Seq<Val>) -> Seq<Val>
    decreases ts,
{
    if ts.len() == 0 {
        acc
    } else {
        held(ts.last(), held_all(ts.drop_last(), acc))
    }
}

/// `acc`, and behind it the values that the term reaches through a box, an
/// assignment or the body of a function that it declares. A term that is
/// itself a value reaches none.
pub open spec fn collect(t: Expr, acc: Seq<Val>) -> Seq<Val> {
    if t is Value {
        acc
    } else {
        held(t, acc)
    }
}

/// Whether the store is valid and holds none of the values that the term
/// reaches.
pub open spec fn state_valid(m: Machine, t: Expr) -> bool {
    store_valid(m.heap) && forall|i: int|
        0 <= i < m.heap.cells.len() ==> !collect(t, Seq::empty()).contains(
            (#[trigger] m.heap.cells[i]).1.value,
        )
}

/// Whether the binding of `x` borrows the variable `y`.
pub open spec fn borrows(g: Gamma, x: Seq<char>, y: Seq<char>) -> bool {
    match partial_slot(g, x) {
        Ok(s) => s.value.contains(Ty::Reference { var: Place::variable(y), mutable: true })
            || s.value.contains(Ty::Reference { var: Place::variable(y), mutable: false }),
        Err(_) => false,
    }
}

/// What is asked of the names `x` and `y`: where the binding of `x` borrows
/// another name `y`, `y` holds a value.
pub open spec fn pair_formed(g: Gamma, x: Seq<char>, y: Seq<char>) -> Result<(), Fault> {
    if x != y && borrows(g, x, y) {
        match slot_of(g, y) {
            Ok(_) => Ok(()),
            Err(e) => Err(e),
        }
    } else {
        Ok(())
    }
}

/// `pair_formed` of the name at `i` with each of the first `j` names, in
/// order, up to the first failure.
pub open spec fn row_formed(g: Gamma, d: Seq<Seq<char>>, i: int, j: nat) -> Result<(), Fault>
    decreases j,
{
    if j == 0 {
        Ok(())
    } else {
        match row_formed(g, d, i, (j - 1) as nat) {
            Err(e) => Err(e),
            Ok(_) => pair_formed(g, d[i], d[j - 1]),
        }
    }
}

/// `row_formed` of each of the first `i` names with all names, in order, up
/// to the first failure.
pub open spec fn rows_formed(g: Gamma, d: Seq<Seq<char>>, i: nat) -> Result<(), Fault>
    decreases i,
{
    if i == 0 {
        Ok(())
    } else {
        match rows_formed(g, d, (i - 1) as nat) {
            Err(e) => Err(e),
            Ok(_) => row_formed(g, d, i - 1, d.len()),
        }
    }
}

/// Whether every name that a binding borrows holds a value; the failure is
/// that of the first pair of names, in the order of the bindings, of which
/// this does not hold.
pub open spec fn env_formed(g: Gamma) -> Result<(), Fault> {
    rows_formed(g, domain(g), domain(g).len())
}

/// Whether the value `v` has the type `t` in the state `m`. A box is valid
/// when what its cell holds is valid; a borrow is valid against any
/// reference type whose variable the innermost frame knows; a moved-out
/// value is valid against an undefined type.
pub open spec fn value_valid(m: Machine, v: Val, t: Ty) -> Result<bool, Fault>
    decreases t,
{
    match t {
        Ty::Undefined(inner) => if v is Undefined {
            Ok(true)
        } else {
            value_valid(m, v, *inner)
        },
        Ty::Epsilon => Ok(v is Epsilon),
        Ty::Numeric => Ok(v is NumericLiteral),
        Ty::Box(inner) => match v {
            Val::Reference(p) => if p.owned {
                match m.heap.read(p.location) {
                    Ok(held) => value_valid(m, held, *inner),
                    Err(e) => Err(e),
                }
            } else {
                Ok(false)
            },
            _ => Ok(false),
        },
        Ty::Reference { var, .. } => match v {
            Val::Reference(p) => if !p.owned {
                match m.locate(var.name()) {
                    Ok(_) => Ok(true),
                    Err(e) => Err(e),
                }
            } else {
                Ok(false)
            },
            _ => Ok(false),
        },
        Ty::Function { .. } => Ok(false),
    }
}

/// Whether the cell of the name `x` holds a value of the type that `g`
/// gives `x`.
pub open spec fn name_valid(m: Machine, g: Gamma, x: Seq<char>) -> Result<bool, Fault> {
    match m.locate(x) {
        Err(e) => Err(e),
        Ok(p) => match m.heap.read(p.location) {
            Err(e) => Err(e),
            Ok(v) => match partial_slot(g, x) {
                Err(e) => Err(e),
                Ok(s) => value_valid(m, v, s.value),
            },
        },
    }
}

/// `name_valid` of the first `n` names of `d`, in order, up to the first
/// that fails or does not hold.
pub open spec fn names_valid(m: Machine, g: Gamma, d: Seq<Seq<char>>, n: nat) -> Result<
    bool,
    Fault,
>
    decreases n,
{
    if n == 0 {
        Ok(true)
    } else {
        match names_valid(m, g, d, (n - 1) as nat) {
            Ok(true) => name_valid(m, g, d[n - 1]),
            other => other,
        }
    }
}

/// Whether the type environment describes the state: both bind the same
/// names, functions apart, and each name's cell holds a value of the name's
/// type.
pub open spec fn abstraction_safe(m: Machine, g: Gamma) -> Result<bool, Fault> {
    if m.dom().to_set() != domain(g).to_set() {
        Ok(false)
    } else {
        names_valid(m, g, domain(g), domain(g).len())
    }
}

/// The three conditions on a state, a term and an environment that a step
/// starts from.
pub open spec fn consistent(m: Machine, t: Expr, g: Gamma) -> Result<(), Fault> {
    if !state_valid(m, t) {
        Err(Fault::InvalidState)
    } else {
        match env_formed(g) {
            Err(e) => Err(e),
            Ok(_) => match abstraction_safe(m, g) {
                Err(e) => Err(e),
                Ok(false) => Err(Fault::UnsafeAbstraction),
                Ok(true) => Ok(()),
            },
        }
    }
}

/// Progress: from a consistent start the term type-checks, and it is a value
/// or evaluates.
pub open spec fn progress(m: Machine, t: Expr, g: Gamma, l: usize) -> Result<(), Fault> {
    match consistent(m, t, g) {
        Err(e) => Err(e),
        Ok(_) => match check(t, g, l).1 {
            Err(e) => Err(e),
            Ok(_) => if t is Value {
                Ok(())
            } else {
                match eval(t, m, l) {
                    Err(e) => Err(e),
                    Ok(_) => Ok(()),
                }
            },
        },
    }
}

/// Preservation: from a consistent start the term type-checks and
/// evaluates, the environment after the check describes the state after the
/// evaluation, and the value has the type.
pub open spec fn preservation(m: Machine, t: Expr, g: Gamma, l: usize) -> Result<(), Fault> {
    match consistent(m, t, g) {
        Err(e) => Err(e),
        Ok(_) => match check(t, g, l).1 {
            Err(e) => Err(e),
            Ok((g2, ty)) => match eval(t, m, l) {
                Err(e) => Err(e),
                Ok((m2, v)) => match abstraction_safe(m2, g2) {
                    Err(e) => Err(e),
                    Ok(false) => Err(Fault::UnsafeAbstractionAfter),
                    Ok(true) => match value_valid(m2, v, ty) {
                        Err(e) => Err(e),
                        Ok(false) => Err(Fault::InvalidType),
                        Ok(true) => Ok(()),
                    },
                },
            },
        },
    }
}

/// Whether `values` holds `v`.
pub fn holds_value(values: &Vec<Value>, v: &Value) -> (b: bool)
    ensures
        b == views(values@).contains(v@),
{
    let mut i: usize = 0;
    while i < values.len()
        invariant
            i <= values@.len(),
            forall|j: int| 0 <= j < i ==> views(values@)[j] != v@,
        decreases values@.len() - i,
    {
        if values[i].same(v) {
            assert(views(values@)[i as int] == v@);
            return true;
        }
        i = i + 1;
    }
    false
}

/// Whether no two cells of the store hold the same value, numbers apart.
pub fn valid_store(s: State) -> (r: Result<bool, Failure>)
    ensures
        verdict(r) == Ok::<bool, Fault>(store_valid(s@.heap)),
{
    let cells = &s.heap.cells;
    let mut j: usize = 0;
    while j < cells.len()
        invariant
            j <= cells@.len(),
            cells@ == s@.heap.cells,
            forall|a: int, b: int|
                0 <= a < b < j ==> (#[trigger] cells@[a]).1.value is NumericLiteral
                    || cells@[a].1.value != (#[trigger] cells@[b]).1.value,
        decreases cells@.len() - j,
    {
        let mut i: usize = 0;
        while i < j
            invariant
                i <= j < cells@.len(),
                cells@ == s@.heap.cells,
                forall|a: int|
                    0 <= a < i ==> (#[trigger] cells@[a]).1.value is NumericLiteral
                        || cells@[a].1.value != cells@[j as int].1.value,
            decreases j - i,
        {
            let number = match &cells.value_at(i).value {
                Value::NumericLiteral(_) => true,
                _ => false,
            };
            if !number && cells.value_at(i).value.same(&cells.value_at(j).value) {
                assert(!(s@.heap.cells[i as int].1.value is NumericLiteral)
                    && s@.heap.cells[i as int].1.value == s@.heap.cells[j as int].1.value);
                return Ok(false);
            }
            i = i + 1;
        }
        j = j + 1;
    }
    Ok(true)
}

/// Adds to `set` the values that the terms hold, as `values_of` does for
/// one.
pub fn get_all_values(ts: &Vec<Term>, set: Vec<Value>) -> (r: Vec<Value>)
    ensures
        views(r@) == held_all(views(ts@), views(set@)),
    decreases ts,
{
    let ghost acc = views(set@);
    let mut out = set;
    let mut i: usize = 0;
    assert(views(ts@).take(0) =~= Seq::empty());
    while i < ts.len()
        invariant
            i <= ts@.len(),
            views(out@) == held_all(views(ts@).take(i as int), acc),
        decreases ts@.len() - i,
    {
        assert(views(ts@).take(i + 1).drop_last() =~= views(ts@).take(i as int));
        out = values_of(&ts[i], out);
        i = i + 1;
    }
    assert(views(ts@).take(i as int) =~= views(ts@));
    out
}

/// Adds to `set` the values that stand in the term where a box, an
/// assignment or a function body holds them.
pub fn values_of(t: &Term, set: Vec<Value>) -> (r: Vec<Value>)
    ensures
        views(r@) == held(t@, views(set@)),
    decreases t,
{
    proof {
        t.lemma_model();
    }
    match t {
        Term::Value(v) => {
            let mut set = set;
            if !holds_value(&set, v) {
                let ghost before = views(set@);
                set.push(v.replicate());
                assert(views(set@) =~= before.push(v@));
            }
            set
        },
        Term::Box { term } => values_of(term, set),
        Term::Assign { term, .. } => values_of(term, set),
        Term::FunctionDeclaration { body, .. } => get_all_values(body, set),
        _ => set,
    }
}

/// Adds to `set` the values that the term reaches through a box, an
/// assignment or the body of a function that it declares.
pub fn get_values(t: Term, set: Vec<Value>) -> (r: Vec<Value>)
    ensures
        views(r@) == collect(t@, views(set@)),
{
    match &t {
        Term::Value(_) => set,
        _ => values_of(&t, set),
    }
}

/// Whether the store is valid and holds none of the values that the term
/// reaches.
pub fn valid_state(s: State, t: Term) -> (r: Result<bool, Failure>)
    ensures
        verdict(r) == Ok::<bool, Fault>(state_valid(s@, t@)),
{
    let reachable = get_values(t, Vec::new());
    assert(views(Seq::<Value>::empty()) =~= Seq::<Val>::empty());
    match valid_store(s.replicate()) {
        Ok(true) => {},
        Ok(false) => {
            return Ok(false);
        },
        Err(e) => {
            return Err(e);
        },
    }
    let cells = &s.heap.cells;
    let mut i: usize = 0;
    while i < cells.len()
        invariant
            i <= cells@.len(),
            cells@ == s@.heap.cells,
            store_valid(s@.heap),
            views(reachable@) == collect(t@, Seq::empty()),
            forall|j: int|
                0 <= j < i ==> !views(reachable@).contains((#[trigger] cells@[j]).1.value),
        decreases cells@.len() - i,
    {
        if holds_value(&reachable, &cells.value_at(i).value) {
            return Ok(false);
        }
        i = i + 1;
    }
    Ok(true)
}

/// Whether the binding of `x` borrows the variable `y`.
pub fn is_borrower(g: &TypeEnviroment, x: &String, y: &String) -> (b: bool)
    ensures
        b == borrows(g@, x@, y@),
{
    match g.gamma.get(x) {
        Some(s) => {
            let shared = Type::Reference {
                var: LVal::Variable { name: y.clone(), copyable: None },
                mutable: false,
            };
            let unique = Type::Reference {
                var: LVal::Variable { name: y.clone(), copyable: None },
                mutable: true,
            };
            holds(&s.value, &unique) || holds(&s.value, &shared)
        },
        None => false,
    }
}

/// Whether every name that a binding borrows holds a value.
pub fn well_formed(g: TypeEnviroment) -> (r: Result<bool, Failure>)
    ensures
        match r {
            Ok(b) => b && env_formed(g@) is Ok,
            Err(e) => env_formed(g@) == Err::<(), Fault>(e@),
        },
{
    let d = g.dom();
    let mut i: usize = 0;
    while i < d.len()
        invariant
            i <= d@.len(),
            views(d@) == domain(g@),
            rows_formed(g@, views(d@), i as nat) is Ok,
        decreases d@.len() - i,
    {
        let mut j: usize = 0;
        while j < d.len()
            invariant
                i < d@.len(),
                j <= d@.len(),
                views(d@) == domain(g@),
                rows_formed(g@, views(d@), i as nat) is Ok,
                row_formed(g@, views(d@), i as int, j as nat) is Ok,
            decreases d@.len() - j,
        {
            if d[i] != d[j] && is_borrower(&g, &d[i], &d[j]) {
                match g.get(&d[j]) {
                    Ok(_) => {},
                    Err(e) => {
                        proof {
                            lemma_row_fails(g@, views(d@), i as int, (j + 1) as nat, d@.len());
                            lemma_rows_fail(g@, views(d@), (i + 1) as nat, d@.len());
                        }
                        return Err(e);
                    },
                }
            }
            j = j + 1;
        }
        i = i + 1;
    }
    Ok(true)
}

/// Once a row has failed up to `j`, it has failed up to any later column.
pub proof fn lemma_row_fails(g: Gamma, d: Seq<Seq<char>>, i: int, j: nat, k: nat)
    requires
        j <= k,
        row_formed(g, d, i, j) is Err,
    ensures
        row_formed(g, d, i, k) == row_formed(g, d, i, j),
    decreases k - j,
{
    if j < k {
        lemma_row_fails(g, d, i, j, (k - 1) as nat);
    }
}

/// Once the rows have failed up to `i`, they have failed up to any later row.
pub proof fn lemma_rows_fail(g: Gamma, d: Seq<Seq<char>>, i: nat, k: nat)
    requires
        i <= k,
        rows_formed(g, d, i) is Err,
    ensures
        rows_formed(g, d, k) == rows_formed(g, d, i),
    decreases k - i,
{
    if i < k {
        lemma_rows_fail(g, d, i, (k - 1) as nat);
    }
}

/// Whether the value `v` has the type `t` in the state `s`.
pub fn valid_type(s: &State, v: &Value, t: Type) -> (r: Result<bool, Failure>)
    ensures
        verdict(r) == value_valid(s@, v@, t@),
{
    type_fits(s, v, &t)
}

/// `valid_type`, on a borrowed type.
pub fn type_fits(s: &State, v: &Value, t: &Type) -> (r: Result<bool, Failure>)
    ensures
        verdict(r) == value_valid(s@, v@, t@),
    decreases t,
{
    match t {
        Type::Undefined(inner) => match v {
            Value::Undefined => Ok(true),
            _ => type_fits(s, v, inner),
        },
        Type::Epsilon => match v {
            Value::Epsilon => Ok(true),
            _ => Ok(false),
        },
        Type::Numeric => match v {
            Value::NumericLiteral(_) => Ok(true),
            _ => Ok(false),
        },
        Type::Box(inner) => match v {
            Value::Reference(p) => {
                if p.owned {
                    match s.heap.read(p.replicate()) {
                        Ok(held) => type_fits(s, &held, inner),
                        Err(e) => Err(e),
                    }
                } else {
                    Ok(false)
                }
            },
            _ => Ok(false),
        },
        Type::Reference { var, .. } => match v {
            Value::Reference(p) => {
                proof {
                    crate::typing::lemma_erased_name(var@);
                }
                if !p.owned {
                    match s.locate(var.get_name()) {
                        Ok(_) => Ok(true),
                        Err(e) => Err(e),
                    }
                } else {
                    Ok(false)
                }
            },
            _ => Ok(false),
        },
        Type::Function { .. } => Ok(false),
    }
}

/// Whether each name of `a` is among `b`.
pub fn all_among(a: &Vec<String>, b: &Vec<String>) -> (r: bool)
    ensures
        r == (forall|i: int| 0 <= i < a@.len() ==> views(b@).contains(#[trigger] views(a@)[i])),
{
    let mut i: usize = 0;
    while i < a.len()
        invariant
            i <= a@.len(),
            forall|j: int| 0 <= j < i ==> views(b@).contains(#[trigger] views(a@)[j]),
        decreases a@.len() - i,
    {
        if !holds_name(b, &a[i]) {
            assert(views(a@)[i as int] == a@[i as int]@);
            return false;
        }
        i = i + 1;
    }
    true
}

/// Whether the type environment describes the state.
pub fn safe_abstraction(s: State, g: TypeEnviroment) -> (r: Result<bool, Failure>)
    ensures
        verdict(r) == abstraction_safe(s@, g@),
{
    let xs = s.dom();
    let ys = g.dom();
    let same = all_among(&xs, &ys) && all_among(&ys, &xs);
    proof {
        let a = views(xs@);
        let b = views(ys@);
        if same {
            assert(a.to_set() =~= b.to_set()) by {
                assert forall|x: Seq<char>| a.to_set().contains(x) == b.to_set().contains(x) by {
                    if a.contains(x) {
                        let i = choose|i: int| 0 <= i < a.len() && a[i] == x;
                        assert(b.contains(a[i]));
                    }
                    if b.contains(x) {
                        let i = choose|i: int| 0 <= i < b.len() && b[i] == x;
                        assert(a.contains(b[i]));
                    }
                }
            }
        } else {
            if !(forall|i: int| 0 <= i < a.len() ==> b.contains(#[trigger] a[i])) {
                let i = choose|i: int| 0 <= i < a.len() && !b.contains(#[trigger] a[i]);
                assert(a.to_set().contains(a[i]));
                assert(!b.to_set().contains(a[i]));
            } else {
                let i = choose|i: int| 0 <= i < b.len() && !a.contains(#[trigger] b[i]);
                assert(b.to_set().contains(b[i]));
                assert(!a.to_set().contains(b[i]));
            }
        }
    }
    if !same {
        return Ok(false);
    }
    let mut i: usize = 0;
    while i < ys.len()
        invariant
            i <= ys@.len(),
            views(ys@) == domain(g@),
            s@.dom().to_set() == domain(g@).to_set(),
            names_valid(s@, g@, views(ys@), i as nat) == Ok::<bool, Fault>(true),
        decreases ys@.len() - i,
    {
        let verdict_here = match s.locate(ys[i].clone()) {
            Err(e) => Err(e),
            Ok(p) => match s.heap.read(p) {
                Err(e) => Err(e),
                Ok(v) => match g.get_partial(&ys[i]) {
                    Err(e) => Err(e),
                    Ok(slot) => valid_type(&s, &v, slot.value),
                },
            },
        };
        match verdict_here {
            Ok(true) => {},
            other => {
                proof {
                    lemma_names_settle(s@, g@, views(ys@), (i + 1) as nat, ys@.len());
                }
                return other;
            },
        }
        i = i + 1;
    }
    Ok(true)
}

/// Once `names_valid` has failed or found a name that does not hold, going
/// on changes nothing.
pub proof fn lemma_names_settle(m: Machine, g: Gamma, d: Seq<Seq<char>>, n: nat, k: nat)
    requires
        n <= k,
        names_valid(m, g, d, n) != Ok::<bool, Fault>(true),
    ensures
        names_valid(m, g, d, k) == names_valid(m, g, d, n),
    decreases k - n,
{
    if n < k {
        lemma_names_settle(m, g, d, n, (k - 1) as nat);
    }
}

/// Checks the three conditions that a step starts from.
pub fn check_consistent(s: &State, t: &Term, g: &TypeEnviroment) -> (r: Result<(), Failure>)
    ensures
        verdict(r) == consistent(s@, t@, g@),
{
    match valid_state(s.replicate(), t.replicate()) {
        Err(e) => {
            return Err(e);
        },
        Ok(false) => {
            return Err(Failure::InvalidState);
        },
        Ok(true) => {},
    }
    match well_formed(g.replicate()) {
        Err(e) => {
            return Err(e);
        },
        Ok(_) => {},
    }
    match safe_abstraction(s.replicate(), g.replicate()) {
        Err(e) => Err(e),
        Ok(false) => Err(Failure::UnsafeAbstraction),
        Ok(true) => Ok(()),
    }
}

/// Progress: a consistent start, a term that type-checks, and that is a
/// value or evaluates. Gives the first of these that fails.
pub fn assert_progess(
    s1: State,
    t1: Term,
    g1: TypeEnviroment,
    lifetime: usize,
) -> (r: Result<(), Failure>)
    ensures
        verdict(r) == progress(s1@, t1@, g1@, lifetime),
{
    match check_consistent(&s1, &t1, &g1) {
        Err(e) => {
            return Err(e);
        },
        Ok(_) => {},
    }
    match check_term(&t1, g1, lifetime).1 {
        Err(e) => {
            return Err(e);
        },
        Ok(_) => {},
    }
    let value = match &t1 {
        Term::Value(_) => true,
        _ => false,
    };
    if value {
        Ok(())
    } else {
        match eval_term(&t1, s1, lifetime) {
            Err(e) => Err(e),
            Ok(_) => Ok(()),
        }
    }
}

/// Preservation: a consistent start, a term that type-checks and evaluates,
/// an environment that describes the state afterwards, and a value of the
/// type found. Gives the first of these that fails.
pub fn assert_preservation(
    s1: State,
    t1: Term,
    g1: TypeEnviroment,
    lifetime: usize,
) -> (r: Result<(), Failure>)
    ensures
        verdict(r) == preservation(s1@, t1@, g1@, lifetime),
{
    match check_consistent(&s1, &t1, &g1) {
        Err(e) => {
            return Err(e);
        },
        Ok(_) => {},
    }
    let (g2, ty) = match check_term(&t1, g1, lifetime).1 {
        Err(e) => {
            return Err(e);
        },
        Ok(found) => found,
    };
    let (s2, v) = match eval_term(&t1, s1, lifetime) {
        Err(e) => {
            return Err(e);
        },
        Ok(found) => found,
    };
    match safe_abstraction(s2.replicate(), g2) {
        Err(e) => {
            return Err(e);
        },
        Ok(false) => {
            return Err(Failure::UnsafeAbstractionAfter);
        },
        Ok(true) => {},
    }
    match valid_type(&s2, &v, ty) {
        Err(e) => Err(e),
        Ok(false) => Err(Failure::InvalidType),
        Ok(true) => Ok(()),
    }
}

} // verus!
