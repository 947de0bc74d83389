//! Preservation: the value that a term evaluates to has the type that the
//! check of the term finds, for every term that calls no function and reads
//! only variables and what their boxes hold, and for reads through
//! references that point where their types say.
use crate::ast::{Expr, Param, Place, Val};
use crate::constants::Fault;
use crate::interpreter::{initial, step, steps, Session};
use crate::exclusivity::{lemma_place_type_boxed, lemma_typed_slot, lemma_undefine};
use crate::properties::{abstraction_safe, value_valid};
use crate::reduction::{bind_values, define, eval, eval_params, eval_seq};
use crate::state::{dropped, fresh, lemma_fresh_next, lemma_put_fresh, Heap, Machine};
use crate::table::{find, lemma_find, lemma_put, lookup, put};
use crate::theorems::{
    lemma_boxed_value, lemma_loc_annotated, lemma_loc_locates, lemma_names_valid,
};
use crate::typecheck::check;
use crate::typing::{
    declared, domain, lemma_declared_in_domain, lemma_erased_name, Gamma, Slot, Ty,
};
use vstd::prelude::*;

verus! {

/// Whether deciding that `v` has the type `t` reads the cell at `a`.
pub open spec fn reaches(m: Machine, v: Val, t: Ty, a: usize) -> bool
    decreases t,
{
    match t {
        Ty::Undefined(inner) => !(v is Undefined) && reaches(m, v, *inner, a),
        Ty::Box(inner) => match v {
            Val::Reference(p) => p.owned && (p.location == a || match m.heap.read(p.location) {
                Ok(held) => reaches(m, held, *inner, a),
                Err(_) => false,
            }),
            _ => false,
        },
        _ => false,
    }
}

/// Whether `n` owning references, followed from `v`, lead to the cell at
/// `a`.
pub open spec fn leads(m: Machine, v: Val, a: usize, n: nat) -> bool
    decreases n,
{
    match v {
        Val::Reference(p) => p.owned && n > 0 && (if n == 1 {
            p.location == a
        } else {
            match m.heap.read(p.location) {
                Ok(held) => leads(m, held, a, (n - 1) as nat),
                Err(_) => false,
            }
        }),
        _ => false,
    }
}

/// A change of a cell that the decision does not read leaves the decision
/// as it is.
pub proof fn lemma_unread_cell(m: Machine, m2: Machine, v: Val, t: Ty, a: usize, s: Slot<Val>)
    requires
        value_valid(m, v, t) == Ok::<bool, Fault>(true),
        !reaches(m, v, t, a),
        m2.stack == m.stack,
        m2.heap.cells == put(m.heap.cells, a, s),
    ensures
        value_valid(m2, v, t) == Ok::<bool, Fault>(true),
    decreases t,
{
    match t {
        Ty::Undefined(inner) => {
            if !(v is Undefined) {
                lemma_unread_cell(m, m2, v, *inner, a, s);
            }
        },
        Ty::Box(inner) => {
            match v {
                Val::Reference(p) => {
                    lemma_put(m.heap.cells, a, s, p.location);
                    let held = m.heap.read(p.location)->Ok_0;
                    lemma_unread_cell(m, m2, held, *inner, a, s);
                },
                _ => {},
            }
        },
        _ => {},
    }
}

/// A decision that reads the cell at `a` follows owning references to it.
/// Gives their number.
pub proof fn lemma_reaches_leads(m: Machine, v: Val, t: Ty, a: usize) -> (n: nat)
    requires
        reaches(m, v, t, a),
    ensures
        n > 0,
        leads(m, v, a, n),
    decreases t,
{
    match t {
        Ty::Undefined(inner) => lemma_reaches_leads(m, v, *inner, a),
        Ty::Box(inner) => {
            let p = v->Reference_0;
            if p.location == a {
                1
            } else {
                let held = m.heap.read(p.location)->Ok_0;
                let k = lemma_reaches_leads(m, held, *inner, a);
                k + 1
            }
        },
        _ => 0,
    }
}

/// A value on a cycle of owning references has no type: each reference
/// takes a box of the type, and the cycle has no end.
pub proof fn lemma_cycle_has_no_type(m: Machine, u: Val, t: Ty, a: usize, n: nat, j: nat)
    requires
        m.heap.read(a) is Ok,
        leads(m, m.heap.read(a)->Ok_0, a, j),
        leads(m, u, a, n),
    ensures
        value_valid(m, u, t) != Ok::<bool, Fault>(true),
    decreases t,
{
    match t {
        Ty::Undefined(inner) => {
            lemma_cycle_has_no_type(m, u, *inner, a, n, j);
        },
        Ty::Box(inner) => {
            let p = u->Reference_0;
            if n == 1 {
                lemma_cycle_has_no_type(m, m.heap.read(a)->Ok_0, *inner, a, j, j);
            } else {
                let held = m.heap.read(p.location)->Ok_0;
                lemma_cycle_has_no_type(m, held, *inner, a, (n - 1) as nat, j);
            }
        },
        _ => {},
    }
}

/// A decision that holds reads no cell that the store lacks.
pub proof fn lemma_reads_live_cells(m: Machine, v: Val, t: Ty, a: usize)
    requires
        value_valid(m, v, t) == Ok::<bool, Fault>(true),
        lookup(m.heap.cells, a) is None,
    ensures
        !reaches(m, v, t, a),
    decreases t,
{
    match t {
        Ty::Undefined(inner) => {
            if !(v is Undefined) {
                lemma_reads_live_cells(m, v, *inner, a);
            }
        },
        Ty::Box(inner) => {
            match v {
                Val::Reference(p) => {
                    if p.owned {
                        let held = m.heap.read(p.location)->Ok_0;
                        lemma_reads_live_cells(m, held, *inner, a);
                    }
                },
                _ => {},
            }
        },
        _ => {},
    }
}

/// Purging a lifetime keeps the heap fresh.
pub proof fn lemma_purge_fresh(h: Heap, l: usize)
    requires
        fresh(h),
    ensures
        fresh(h.drop_lifetime(l)),
{
    crate::theorems::lemma_purge(h.cells, l);
    let h2 = h.drop_lifetime(l);
    assert forall|i: int| 0 <= i < h2.cells.len() implies (#[trigger] h2.cells[i]).0 < h2.next by {
        assert(h2.cells.contains(h2.cells[i]));
        assert(h.cells.contains(h2.cells[i]));
        let k = choose|k: int| 0 <= k < h.cells.len() && h.cells[k] == h2.cells[i];
        assert(h.cells[k].0 < h.next);
    }
}

/// Dropping a value keeps the cells below the next address.
pub proof fn lemma_dropped_fresh(cells: Seq<(usize, Slot<Val>)>, v: Val, next: usize)
    requires
        fresh(Heap { cells, next }),
        dropped(cells, v) is Ok,
    ensures
        fresh(Heap { cells: dropped(cells, v)->Ok_0, next }),
    decreases cells.len(),
{
    match v {
        Val::Reference(p) => {
            if p.owned {
                lemma_find(cells, p.location);
                let i = find(cells, p.location)->0;
                let rest = cells.remove(i);
                let h = Heap { cells, next };
                assert forall|k: int| 0 <= k < rest.len() implies (#[trigger] rest[k]).0 < next by {
                    if k < i {
                        assert(rest[k] == h.cells[k]);
                    } else {
                        assert(rest[k] == h.cells[k + 1]);
                    }
                }
                lemma_dropped_fresh(rest, cells[i].1.value, next);
            }
        },
        _ => {},
    }
}

/// Defining a variable keeps the heap fresh.
pub proof fn lemma_define_fresh(m: Machine, x: Seq<char>, v: Val, l: usize)
    requires
        fresh(m.heap),
        define(m, x, v, l) is Ok,
    ensures
        fresh(define(m, x, v, l)->Ok_0.heap),
{
    lemma_put_fresh(
        m.heap,
        m.heap.next,
        Slot { value: v, lifetime: l },
        (m.heap.next + 1) as usize,
    );
}

/// Binding values keeps the heap fresh.
pub proof fn lemma_bind_values_fresh(m: Machine, args: Seq<Param>, vs: Seq<Val>, l: usize)
    requires
        fresh(m.heap),
        bind_values(m, args, vs, l) is Ok,
    ensures
        fresh(bind_values(m, args, vs, l)->Ok_0.heap),
    decreases vs.len(),
{
    if vs.len() > 0 {
        lemma_bind_values_fresh(m, args, vs.drop_last(), l);
        let m1 = bind_values(m, args, vs.drop_last(), l)->Ok_0;
        if vs.len() <= args.len() {
            lemma_define_fresh(m1, args[vs.len() - 1].name, vs.last(), l);
        }
    }
}

/// A write to a place keeps the heap fresh.
pub proof fn lemma_write_fresh(m: Machine, lv: Place, v: Val)
    requires
        fresh(m.heap),
        m.write(lv, v) is Ok,
    ensures
        fresh(m.write(lv, v)->Ok_0.heap),
{
    let a = m.loc(lv)->Ok_0.location;
    lemma_find(m.heap.cells, a);
    let s = lookup(m.heap.cells, a)->0;
    lemma_put_fresh(m.heap, a, Slot { value: v, lifetime: s.lifetime }, m.heap.next);
}

/// An evaluation keeps the heap fresh: the address of every cell stays
/// below the one that the next cell gets.
pub proof fn lemma_eval_fresh(t: Expr, m: Machine, l: usize)
    requires
        fresh(m.heap),
        eval(t, m, l) is Ok,
    ensures
        fresh(eval(t, m, l)->Ok_0.0.heap),
    decreases usize::MAX - l, t,
{
    match t {
        Expr::Variable(lv) => {
            if lv.copies() == Ok::<bool, Fault>(false) {
                lemma_write_fresh(m, lv, Val::Undefined);
            }
        },
        Expr::Box { term } => {
            lemma_eval_fresh(*term, m, l);
            let (m2, v) = eval(*term, m, l)->Ok_0;
            lemma_put_fresh(
                m2.heap,
                m2.heap.next,
                Slot { value: v, lifetime: 0 },
                (m2.heap.next + 1) as usize,
            );
        },
        Expr::Let { variable, term, .. } => {
            lemma_eval_fresh(*term, m, l);
            let (m2, v) = eval(*term, m, l)->Ok_0;
            lemma_define_fresh(m2, variable.name(), v, l);
        },
        Expr::Assign { variable, term } => {
            lemma_eval_fresh(*term, m, l);
            let (m2, v) = eval(*term, m, l)->Ok_0;
            let displaced = m2.read(variable)->Ok_0;
            lemma_dropped_fresh(m2.heap.cells, displaced, m2.heap.next);
            let m3 = m2.drop(displaced)->Ok_0;
            lemma_write_fresh(m3, variable, v);
        },
        Expr::FunctionCall { name, params } => {
            let f = lookup(m.top().functions, name)->0;
            lemma_eval_params_fresh(params, f.args, m, l);
            let (m1, values) = eval_params(params, f.args, m, l)->Ok_0;
            let pushed = m1.push_frame(m.top().functions);
            lemma_bind_values_fresh(pushed, f.args, values, (l + 1) as usize);
            let m2 = bind_values(pushed, f.args, values, (l + 1) as usize)->Ok_0;
            lemma_eval_seq_fresh(f.body, m2, (l + 1) as usize);
            let m3 = eval_seq(f.body, m2, (l + 1) as usize)->Ok_0.0;
            lemma_purge_fresh(m3.heap, (l + 1) as usize);
        },
        _ => {},
    }
}

/// The evaluation of parameters keeps the heap fresh.
pub proof fn lemma_eval_params_fresh(ps: Seq<Expr>, args: Seq<Param>, m: Machine, l: usize)
    requires
        fresh(m.heap),
        eval_params(ps, args, m, l) is Ok,
    ensures
        fresh(eval_params(ps, args, m, l)->Ok_0.0.heap),
    decreases usize::MAX - l, ps,
{
    if ps.len() > 0 {
        lemma_eval_params_fresh(ps.drop_last(), args, m, l);
        let (m1, vs) = eval_params(ps.drop_last(), args, m, l)->Ok_0;
        if ps.len() <= args.len() {
            match ps.last() {
                Expr::Variable(lv) if args[ps.len() - 1].reference => {},
                _ => {
                    lemma_eval_fresh(ps.last(), m1, l);
                },
            }
        }
    }
}

/// The evaluation of a sequence keeps the heap fresh.
pub proof fn lemma_eval_seq_fresh(ts: Seq<Expr>, m: Machine, l: usize)
    requires
        fresh(m.heap),
        eval_seq(ts, m, l) is Ok,
    ensures
        fresh(eval_seq(ts, m, l)->Ok_0.0.heap),
    decreases usize::MAX - l, ts,
{
    if ts.len() > 0 {
        lemma_eval_seq_fresh(ts.drop_last(), m, l);
        lemma_eval_fresh(ts.last(), eval_seq(ts.drop_last(), m, l)->Ok_0.0, l);
    }
}

/// The terms of which preservation is shown: those that call no function,
/// and read only variables and what the boxes of variables hold.
pub open spec fn direct(t: Expr, g: Gamma) -> bool
    decreases t,
{
    match t {
        Expr::Variable(lv) => declared(g, lv.name()) && lookup(g, lv.name())->0.value.can_undefine(
            lv,
        ),
        Expr::Box { term } => direct(*term, g),
        Expr::FunctionCall { .. } => false,
        _ => true,
    }
}

/// Preservation for reads. Where the environment describes the state, a
/// read of a variable, or of what the boxes of a variable hold, gives a
/// value of the type that the check found, whether the read copies the
/// value or moves it out.
pub proof fn preservation_of_reads(lv: Place, g: Gamma, m: Machine, l: usize)
    requires
        abstraction_safe(m, g) == Ok::<bool, Fault>(true),
        declared(g, lv.name()),
        lookup(g, lv.name())->0.value.can_undefine(lv),
        check(Expr::Variable(lv), g, l).1 is Ok,
        eval(check(Expr::Variable(lv), g, l).0, m, l) is Ok,
    ensures
        value_valid(
            eval(check(Expr::Variable(lv), g, l).0, m, l)->Ok_0.0,
            eval(check(Expr::Variable(lv), g, l).0, m, l)->Ok_0.1,
            check(Expr::Variable(lv), g, l).1->Ok_0.1,
        ) == Ok::<bool, Fault>(true),
{
    let x = lv.name();
    let s = lookup(g, x)->0;
    let ty = check(Expr::Variable(lv), g, l).1->Ok_0.1;
    lemma_declared_in_domain(g, x);
    let d = domain(g);
    let i = choose|i: int| 0 <= i < d.len() && d[i] == x;
    lemma_names_valid(m, g, d, d.len(), i);
    lemma_undefine(s.value, lv);
    lemma_boxed_value(m, g, lv);
    lemma_typed_slot(g, lv);
    lemma_place_type_boxed(g, lv);
    let marked = lv.annotated(Some(ty.copyable()));
    lemma_loc_annotated(m, lv, Some(ty.copyable()));
    let v = m.read(lv)->Ok_0;
    assert(value_valid(m, v, ty) == Ok::<bool, Fault>(true));
    if !ty.copyable() {
        let a = m.loc(lv)->Ok_0.location;
        let m2 = m.write(marked, Val::Undefined)->Ok_0;
        let kept = lookup(m.heap.cells, a)->0;
        if reaches(m, v, ty, a) {
            let n = lemma_reaches_leads(m, v, ty, a);
            lemma_cycle_has_no_type(m, v, ty, a, n, n);
        }
        lemma_unread_cell(
            m,
            m2,
            v,
            ty,
            a,
            Slot { value: Val::Undefined, lifetime: kept.lifetime },
        );
    }
}

/// Preservation for reads through a reference. Where the environment
/// describes the state, a read of what the reference `r` borrows gives a
/// value of the type that the check found, as long as the reference points
/// to the cell of the variable that its type names.
pub proof fn preservation_through_reference(
    r: Seq<char>,
    annotation: Option<bool>,
    g: Gamma,
    m: Machine,
    l: usize,
)
    requires
        abstraction_safe(m, g) == Ok::<bool, Fault>(true),
        lookup(g, r) is Some,
        lookup(g, r)->0.value is Reference,
        declared(g, lookup(g, r)->0.value->Reference_var.name()),
        m.locate(r) is Ok,
        m.heap.read(m.locate(r)->Ok_0.location) is Ok,
        m.heap.read(m.locate(r)->Ok_0.location)->Ok_0 is Reference,
        m.locate(lookup(g, r)->0.value->Reference_var.name()) is Ok,
        m.heap.read(m.locate(r)->Ok_0.location)->Ok_0->Reference_0.location == m.locate(
            lookup(g, r)->0.value->Reference_var.name(),
        )->Ok_0.location,
        check(
            Expr::Variable(
                Place::Deref { var: Box::new(Place::Variable { name: r, copyable: annotation }) },
            ),
            g,
            l,
        ).1 is Ok,
        eval(
            check(
                Expr::Variable(
                    Place::Deref {
                        var: Box::new(Place::Variable { name: r, copyable: annotation }),
                    },
                ),
                g,
                l,
            ).0,
            m,
            l,
        ) is Ok,
    ensures
        ({
            let t = Expr::Variable(
                Place::Deref { var: Box::new(Place::Variable { name: r, copyable: annotation }) },
            );
            value_valid(
                eval(check(t, g, l).0, m, l)->Ok_0.0,
                eval(check(t, g, l).0, m, l)->Ok_0.1,
                check(t, g, l).1->Ok_0.1,
            ) == Ok::<bool, Fault>(true)
        }),
{
    let lv = Place::Deref { var: Box::new(Place::Variable { name: r, copyable: annotation }) };
    let x = lookup(g, r)->0.value->Reference_var.name();
    reveal_with_fuel(crate::typing::place_type, 2);
    reveal_with_fuel(Place::name, 2);
    reveal_with_fuel(Place::annotated, 2);
    reveal_with_fuel(Place::copyable, 2);
    reveal_with_fuel(Ty::can_undefine, 2);
    reveal_with_fuel(Machine::loc, 2);
    lemma_declared_in_domain(g, x);
    let d = domain(g);
    let i = choose|i: int| 0 <= i < d.len() && d[i] == x;
    lemma_names_valid(m, g, d, d.len(), i);
    let ty = check(Expr::Variable(lv), g, l).1->Ok_0.1;
    lemma_loc_annotated(m, lv, Some(ty.copyable()));
}

/// Preservation for terms that call no function. Where the environment
/// describes the state and the heap is fresh, a term that calls no function
/// and reads only variables and what their boxes hold evaluates to a value
/// of the type that the check of the term found.
pub proof fn preservation_without_calls(t: Expr, g: Gamma, m: Machine, l: usize)
    requires
        abstraction_safe(m, g) == Ok::<bool, Fault>(true),
        fresh(m.heap),
        direct(t, g),
        check(t, g, l).1 is Ok,
        eval(check(t, g, l).0, m, l) is Ok,
    ensures
        value_valid(
            eval(check(t, g, l).0, m, l)->Ok_0.0,
            eval(check(t, g, l).0, m, l)->Ok_0.1,
            check(t, g, l).1->Ok_0.1,
        ) == Ok::<bool, Fault>(true),
    decreases t,
{
    match t {
        Expr::Variable(lv) => {
            preservation_of_reads(lv, g, m, l);
        },
        Expr::Box { term } => {
            preservation_without_calls(*term, g, m, l);
            let inner = check(*term, g, l).0;
            let ty = check(*term, g, l).1->Ok_0.1;
            let (m2, v) = eval(inner, m, l)->Ok_0;
            lemma_eval_fresh(inner, m, l);
            lemma_fresh_next(m2.heap);
            lemma_reads_live_cells(m2, v, ty, m2.heap.next);
            let m3 = m2.insert(0, v);
            lemma_unread_cell(m2, m3, v, ty, m2.heap.next, Slot { value: v, lifetime: 0 });
            lemma_put(m2.heap.cells, m2.heap.next, Slot { value: v, lifetime: 0 }, m2.heap.next);
        },
        Expr::Ref { mutable, var } => {
            lemma_loc_locates(m, var);
            lemma_erased_name(var);
        },
        _ => {},
    }
}

/// A run keeps the heap fresh.
pub proof fn lemma_steps_fresh(ts: Seq<Expr>, x: Session)
    requires
        fresh(x.state.heap),
    ensures
        fresh(steps(ts, x).0.state.heap),
    decreases ts.len(),
{
    if ts.len() > 0 {
        lemma_steps_fresh(ts.drop_last(), x);
        let x1 = steps(ts.drop_last(), x).0;
        if steps(ts.drop_last(), x).1 is Ok && step(x1, ts.last()) is Ok {
            lemma_eval_fresh(ts.last(), x1.state, 0);
        }
    }
}

/// The heap of every state that a run from the initial state reaches is
/// fresh: the run never hands out the address of a live cell.
pub proof fn run_keeps_heap_fresh(ts: Seq<Expr>)
    ensures
        fresh(steps(ts, initial()).0.state.heap),
{
    lemma_steps_fresh(ts, initial());
}

} // verus!
