//! What a `let` and an assignment do to the state: the cell that a `let`
//! adds, the cells that an assignment frees, and that no address is used
//! twice.
use crate::abstraction::lemma_keys_put;
use crate::ast::{Expr, Param, Place, Val};
use crate::constants::Fault;
use crate::interpreter::{initial, step, steps, Session};
use crate::ownership::with_cells;
use crate::preservation::{leads, lemma_define_fresh, lemma_eval_fresh, run_keeps_heap_fresh};
use crate::reduction::{bind_values, define, eval, eval_params, eval_seq};
use crate::state::{dropped, fresh, lemma_fresh_next, purge, Machine};
use crate::theorems::lemma_purge;
use crate::table::{
    bound, distinct_keys, find, keys, lemma_find, lemma_put, lemma_put_distinct, lemma_removed,
    lookup,
};
use crate::typing::Slot;
use vstd::prelude::*;

verus! {

/// A `let` binds its name to a new cell. Where the `let` evaluates, and its
/// term leaves every cell below the next address, it gives the unit value
/// and differs from the state that the term left in this: the innermost
/// frame keeps the name at an address that had no cell, and the cell at that
/// address holds the value of the term at the lifetime `l`. Every other
/// name, frame, function and cell is as the term left it.
pub proof fn let_binds_a_new_cell(m: Machine, mutable: bool, variable: Place, term: Expr, l: usize)
    requires
        eval(Expr::Let { mutable, variable, term: Box::new(term) }, m, l) is Ok,
        fresh(eval(term, m, l)->Ok_0.0.heap),
    ensures
        ({
            let (m2, v) = eval(term, m, l)->Ok_0;
            let x = variable.name();
            let a = m2.heap.next;
            &&& eval(term, m, l) is Ok
            &&& eval(Expr::Let { mutable, variable, term: Box::new(term) }, m, l) matches Ok(
                (m3, r),
            )
            &&& r == Val::Epsilon
            &&& m3.locate(x) == Ok::<_, Fault>(m2.heap.fresh())
            &&& m2.heap.fresh().location == a
            &&& !bound(m2.heap.cells, a)
            &&& lookup(m3.heap.cells, a) == Some(Slot { value: v, lifetime: l })
            &&& forall|b: usize|
                b != a ==> #[trigger] lookup(m3.heap.cells, b) == lookup(m2.heap.cells, b)
            &&& fresh(m3.heap)
            &&& m3.stack.len() == m2.stack.len()
            &&& m3.stack.drop_last() == m2.stack.drop_last()
            &&& m3.top().functions == m2.top().functions
            &&& keys(m3.top().locations).to_set() == keys(m2.top().locations).to_set().insert(x)
            &&& forall|y: Seq<char>|
                y != x ==> #[trigger] lookup(m3.top().locations, y) == lookup(
                    m2.top().locations,
                    y,
                )
        }),
{
    let (m2, v) = eval(term, m, l)->Ok_0;
    let x = variable.name();
    let a = m2.heap.next;
    let m3 = eval(Expr::Let { mutable, variable, term: Box::new(term) }, m, l)->Ok_0.0;
    lemma_fresh_next(m2.heap);
    lemma_define_fresh(m2, x, v, l);
    assert forall|b: usize| b != a implies #[trigger] lookup(m3.heap.cells, b) == lookup(
        m2.heap.cells,
        b,
    ) by {
        lemma_put(m2.heap.cells, a, Slot { value: v, lifetime: l }, b);
    }
    lemma_put(m2.heap.cells, a, Slot { value: v, lifetime: l }, a);
    assert forall|y: Seq<char>| y != x implies #[trigger] lookup(m3.top().locations, y) == lookup(
        m2.top().locations,
        y,
    ) by {
        lemma_put(m2.top().locations, x, m2.heap.fresh(), y);
    }
    lemma_put(m2.top().locations, x, m2.heap.fresh(), x);
    lemma_keys_put(m2.top().locations, x, m2.heap.fresh());
    assert(m3.stack.drop_last() =~= m2.stack.drop_last());
}

/// Whether owning references, followed from `v`, lead to the cell at `b`:
/// whether `v` owns the cell, directly or through the boxes that it owns.
pub open spec fn frees(m: Machine, v: Val, b: usize) -> bool {
    exists|n: nat| leads(m, v, b, n)
}

/// Whether every cell of `m2` is a cell of `m`.
pub open spec fn part_of(m2: Machine, m: Machine) -> bool {
    forall|c: usize| #[trigger]
        lookup(m2.heap.cells, c) is Some ==> lookup(m2.heap.cells, c) == lookup(m.heap.cells, c)
}

/// Owning references that lead to a cell in a part of the store lead to it
/// in the whole store.
pub proof fn lemma_leads_in_whole(m2: Machine, m: Machine, v: Val, b: usize, n: nat)
    requires
        part_of(m2, m),
        leads(m2, v, b, n),
    ensures
        leads(m, v, b, n),
    decreases n,
{
    if n > 1 {
        let p = v->Reference_0;
        assert(lookup(m2.heap.cells, p.location) is Some);
        lemma_leads_in_whole(m2, m, m2.heap.read(p.location)->Ok_0, b, (n - 1) as nat);
    }
}

/// Owning references that lead to a cell lead to it in a store that lacks
/// the cell at `a` too, unless they pass the cell at `a`: then they lead to
/// `a` there, in the number of steps that is returned. The number is zero
/// where they do not pass it.
pub proof fn lemma_leads_around(m: Machine, m2: Machine, a: usize, v: Val, b: usize, n: nat) -> (j:
    nat)
    requires
        forall|c: usize| c != a ==> #[trigger] lookup(m2.heap.cells, c) == lookup(m.heap.cells, c),
        leads(m, v, b, n),
    ensures
        j == 0 ==> leads(m2, v, b, n),
        j > 0 ==> leads(m2, v, a, j),
    decreases n,
{
    let p = v->Reference_0;
    if n == 1 {
        0
    } else if p.location == a {
        1
    } else {
        assert(lookup(m2.heap.cells, p.location) == lookup(m.heap.cells, p.location));
        let held = m.heap.read(p.location)->Ok_0;
        let j = lemma_leads_around(m, m2, a, held, b, (n - 1) as nat);
        if j == 0 {
            0
        } else {
            j + 1
        }
    }
}

/// Where a value can be dropped, every cell that it owns is in the store.
pub proof fn lemma_owned_cells_are_bound(m: Machine, v: Val, b: usize, n: nat)
    requires
        distinct_keys(m.heap.cells),
        dropped(m.heap.cells, v) is Ok,
        leads(m, v, b, n),
    ensures
        bound(m.heap.cells, b),
    decreases m.heap.cells.len(),
{
    let cells = m.heap.cells;
    let p = v->Reference_0;
    lemma_find(cells, p.location);
    let i = find(cells, p.location)->0;
    if n > 1 {
        let rest = cells.remove(i);
        let m2 = with_cells(m, rest);
        let held = cells[i].1.value;
        assert forall|c: usize| c != p.location implies #[trigger] lookup(m2.heap.cells, c)
            == lookup(cells, c) by {
            lemma_removed(cells, i, c);
        }
        let j = lemma_leads_around(m, m2, p.location, held, b, (n - 1) as nat);
        if j == 0 {
            lemma_owned_cells_are_bound(m2, held, b, (n - 1) as nat);
            lemma_removed(cells, i, b);
        } else {
            lemma_owned_cells_are_bound(m2, held, p.location, j);
            lemma_removed(cells, i, p.location);
        }
    }
}

/// Dropping a value takes out of the store exactly the cells that the value
/// owns, directly or through the boxes that it owns, and leaves every other
/// cell as it is.
pub proof fn lemma_dropped_cells(m: Machine, v: Val)
    requires
        distinct_keys(m.heap.cells),
        dropped(m.heap.cells, v) is Ok,
    ensures
        distinct_keys(dropped(m.heap.cells, v)->Ok_0),
        forall|b: usize|
            #[trigger] lookup(dropped(m.heap.cells, v)->Ok_0, b) == (if frees(m, v, b) {
                None
            } else {
                lookup(m.heap.cells, b)
            }),
    decreases m.heap.cells.len(),
{
    let cells = m.heap.cells;
    let out = dropped(cells, v)->Ok_0;
    match v {
        Val::Reference(p) => {
            if p.owned {
                lemma_find(cells, p.location);
                let a = p.location;
                let i = find(cells, a)->0;
                let rest = cells.remove(i);
                let m2 = with_cells(m, rest);
                let held = cells[i].1.value;
                lemma_removed(cells, i, a);
                lemma_dropped_cells(m2, held);
                assert forall|c: usize| c != a implies #[trigger] lookup(m2.heap.cells, c)
                    == lookup(cells, c) by {
                    lemma_removed(cells, i, c);
                }
                assert(part_of(m2, m)) by {
                    assert forall|c: usize| #[trigger]
                        lookup(m2.heap.cells, c) is Some implies lookup(m2.heap.cells, c)
                        == lookup(cells, c) by {
                        lemma_removed(cells, i, c);
                    }
                }
                assert forall|b: usize| #[trigger] lookup(out, b) == (if frees(m, v, b) {
                    None
                } else {
                    lookup(cells, b)
                }) by {
                    lemma_removed(cells, i, b);
                    if b == a {
                        assert(leads(m, v, a, 1));
                    } else if frees(m2, held, b) {
                        let n = choose|n: nat| leads(m2, held, b, n);
                        lemma_leads_in_whole(m2, m, held, b, n);
                        assert(leads(m, v, b, n + 1));
                    } else if frees(m, v, b) {
                        let n = choose|n: nat| leads(m, v, b, n);
                        let j = lemma_leads_around(m, m2, a, held, b, (n - 1) as nat);
                        if j > 0 {
                            lemma_owned_cells_are_bound(m2, held, a, j);
                        }
                    }
                }
            } else {
                assert forall|b: usize| !frees(m, v, b) by {
                    assert forall|n: nat| !leads(m, v, b, n) by {}
                }
            }
        },
        _ => {
            assert forall|b: usize| !frees(m, v, b) by {
                assert forall|n: nat| !leads(m, v, b, n) by {}
            }
        },
    }
}

/// The cell of a place in a part of the store is its cell in the whole
/// store.
pub proof fn lemma_loc_in_whole(m2: Machine, m: Machine, lv: Place)
    requires
        part_of(m2, m),
        m2.stack == m.stack,
        m2.loc(lv) is Ok,
    ensures
        m.loc(lv) == m2.loc(lv),
    decreases lv,
{
    match lv {
        Place::Variable { .. } => {},
        Place::Deref { var } => {
            lemma_loc_in_whole(m2, m, *var);
            let p = m2.loc(*var)->Ok_0;
            assert(lookup(m2.heap.cells, p.location) is Some);
        },
    }
}

/// An assignment frees what it displaces. Where the assignment evaluates,
/// from a state in which its term leaves no address with two cells, it gives
/// the unit value and differs from the state that the term left in this: the
/// cell of the place holds the value of the term, at the lifetime that the
/// cell had, and the cells that the displaced value owned, directly or
/// through the boxes that it owned, are gone. The stack and every other cell
/// are as the term left them.
pub proof fn assignment_frees_what_it_displaces(m: Machine, variable: Place, term: Expr, l: usize)
    requires
        eval(Expr::Assign { variable, term: Box::new(term) }, m, l) is Ok,
        distinct_keys(eval(term, m, l)->Ok_0.0.heap.cells),
    ensures
        ({
            let (m2, v) = eval(term, m, l)->Ok_0;
            let (m4, r) = eval(Expr::Assign { variable, term: Box::new(term) }, m, l)->Ok_0;
            let a = m2.loc(variable)->Ok_0.location;
            let displaced = m2.read(variable)->Ok_0;
            &&& eval(term, m, l) is Ok
            &&& m2.loc(variable) is Ok
            &&& m2.read(variable) is Ok
            &&& r == Val::Epsilon
            &&& m4.stack == m2.stack
            &&& m4.heap.next == m2.heap.next
            &&& distinct_keys(m4.heap.cells)
            &&& !frees(m2, displaced, a)
            &&& lookup(m4.heap.cells, a) == Some(
                Slot { value: v, lifetime: lookup(m2.heap.cells, a)->0.lifetime },
            )
            &&& forall|b: usize|
                b != a ==> #[trigger] lookup(m4.heap.cells, b) == (if frees(m2, displaced, b) {
                    None
                } else {
                    lookup(m2.heap.cells, b)
                })
        }),
{
    let (m2, v) = eval(term, m, l)->Ok_0;
    let displaced = m2.read(variable)->Ok_0;
    let m3 = m2.drop(displaced)->Ok_0;
    let m4 = m3.write(variable, v)->Ok_0;
    lemma_dropped_cells(m2, displaced);
    assert(part_of(m3, m2));
    lemma_loc_in_whole(m3, m2, variable);
    let a = m2.loc(variable)->Ok_0.location;
    let s = Slot { value: v, lifetime: lookup(m3.heap.cells, a)->0.lifetime };
    assert(lookup(m3.heap.cells, a) is Some);
    lemma_put(m3.heap.cells, a, s, a);
    lemma_put_distinct(m3.heap.cells, a, s);
    assert forall|b: usize| b != a implies #[trigger] lookup(m4.heap.cells, b) == (if frees(
        m2,
        displaced,
        b,
    ) {
        None
    } else {
        lookup(m2.heap.cells, b)
    }) by {
        lemma_put(m3.heap.cells, a, s, b);
        assert(lookup(m3.heap.cells, b) == (if frees(m2, displaced, b) {
            None
        } else {
            lookup(m2.heap.cells, b)
        }));
    }
}

/// Purging a lifetime leaves no address with two cells.
pub proof fn lemma_purge_distinct(cells: Seq<(usize, Slot<Val>)>, l: usize)
    requires
        distinct_keys(cells),
    ensures
        distinct_keys(purge(cells, l)),
    decreases cells.len(),
{
    if cells.len() > 0 {
        let init = cells.drop_last();
        let last = cells.last();
        assert forall|i: int, j: int| 0 <= i < j < init.len() implies (#[trigger] init[i]).0 != (
        #[trigger] init[j]).0 by {
            assert(init[i] == cells[i]);
            assert(init[j] == cells[j]);
        }
        lemma_purge_distinct(init, l);
        lemma_purge(init, l);
        let kept = purge(init, l);
        let all = purge(cells, l);
        if last.1.lifetime != l {
            assert forall|i: int, j: int| 0 <= i < j < all.len() implies (#[trigger] all[i]).0 != (
            #[trigger] all[j]).0 by {
                assert(all[i] == kept[i]);
                if j < kept.len() {
                    assert(all[j] == kept[j]);
                } else {
                    assert(kept.contains(kept[i]));
                    assert(init.contains(kept[i]));
                    let k = choose|k: int| 0 <= k < init.len() && init[k] == kept[i];
                    assert(cells[k] == init[k]);
                    assert(cells[cells.len() - 1] == last);
                }
            }
        }
    }
}

/// Dropping a value leaves no address with two cells.
pub proof fn lemma_dropped_distinct(cells: Seq<(usize, Slot<Val>)>, v: Val)
    requires
        distinct_keys(cells),
        dropped(cells, v) is Ok,
    ensures
        distinct_keys(dropped(cells, v)->Ok_0),
    decreases cells.len(),
{
    match v {
        Val::Reference(p) => {
            if p.owned {
                lemma_find(cells, p.location);
                let i = find(cells, p.location)->0;
                lemma_removed(cells, i, p.location);
                lemma_dropped_distinct(cells.remove(i), cells[i].1.value);
            }
        },
        _ => {},
    }
}

/// Defining a variable leaves no address with two cells.
pub proof fn lemma_define_distinct(m: Machine, x: Seq<char>, v: Val, l: usize)
    requires
        distinct_keys(m.heap.cells),
        define(m, x, v, l) is Ok,
    ensures
        distinct_keys(define(m, x, v, l)->Ok_0.heap.cells),
{
    lemma_put_distinct(m.heap.cells, m.heap.next, Slot { value: v, lifetime: l });
}

/// Binding values leaves no address with two cells.
pub proof fn lemma_bind_values_distinct(m: Machine, args: Seq<Param>, vs: Seq<Val>, l: usize)
    requires
        distinct_keys(m.heap.cells),
        bind_values(m, args, vs, l) is Ok,
    ensures
        distinct_keys(bind_values(m, args, vs, l)->Ok_0.heap.cells),
    decreases vs.len(),
{
    if vs.len() > 0 {
        lemma_bind_values_distinct(m, args, vs.drop_last(), l);
        let m1 = bind_values(m, args, vs.drop_last(), l)->Ok_0;
        if vs.len() <= args.len() {
            lemma_define_distinct(m1, args[vs.len() - 1].name, vs.last(), l);
        }
    }
}

/// A write to a place leaves no address with two cells.
pub proof fn lemma_write_distinct(m: Machine, lv: Place, v: Val)
    requires
        distinct_keys(m.heap.cells),
        m.write(lv, v) is Ok,
    ensures
        distinct_keys(m.write(lv, v)->Ok_0.heap.cells),
{
    let a = m.loc(lv)->Ok_0.location;
    let s = lookup(m.heap.cells, a)->0;
    lemma_put_distinct(m.heap.cells, a, Slot { value: v, lifetime: s.lifetime });
}

/// An evaluation leaves no address with two cells.
pub proof fn lemma_eval_distinct(t: Expr, m: Machine, l: usize)
    requires
        distinct_keys(m.heap.cells),
        eval(t, m, l) is Ok,
    ensures
        distinct_keys(eval(t, m, l)->Ok_0.0.heap.cells),
    decreases usize::MAX - l, t,
{
    match t {
        Expr::Variable(lv) => {
            if lv.copies() == Ok::<bool, Fault>(false) {
                lemma_write_distinct(m, lv, Val::Undefined);
            }
        },
        Expr::Box { term } => {
            lemma_eval_distinct(*term, m, l);
            let (m2, v) = eval(*term, m, l)->Ok_0;
            lemma_put_distinct(m2.heap.cells, m2.heap.next, Slot { value: v, lifetime: 0 });
        },
        Expr::Let { variable, term, .. } => {
            lemma_eval_distinct(*term, m, l);
            let (m2, v) = eval(*term, m, l)->Ok_0;
            lemma_define_distinct(m2, variable.name(), v, l);
        },
        Expr::Assign { variable, term } => {
            lemma_eval_distinct(*term, m, l);
            let (m2, v) = eval(*term, m, l)->Ok_0;
            let displaced = m2.read(variable)->Ok_0;
            lemma_dropped_distinct(m2.heap.cells, displaced);
            let m3 = m2.drop(displaced)->Ok_0;
            lemma_write_distinct(m3, variable, v);
        },
        Expr::FunctionCall { name, params } => {
            let f = lookup(m.top().functions, name)->0;
            lemma_eval_params_distinct(params, f.args, m, l);
            let (m1, values) = eval_params(params, f.args, m, l)->Ok_0;
            let pushed = m1.push_frame(m.top().functions);
            lemma_bind_values_distinct(pushed, f.args, values, (l + 1) as usize);
            let m2 = bind_values(pushed, f.args, values, (l + 1) as usize)->Ok_0;
            lemma_eval_seq_distinct(f.body, m2, (l + 1) as usize);
            let m3 = eval_seq(f.body, m2, (l + 1) as usize)->Ok_0.0;
            lemma_purge_distinct(m3.heap.cells, (l + 1) as usize);
        },
        _ => {},
    }
}

/// The evaluation of parameters leaves no address with two cells.
pub proof fn lemma_eval_params_distinct(ps: Seq<Expr>, args: Seq<Param>, m: Machine, l: usize)
    requires
        distinct_keys(m.heap.cells),
        eval_params(ps, args, m, l) is Ok,
    ensures
        distinct_keys(eval_params(ps, args, m, l)->Ok_0.0.heap.cells),
    decreases usize::MAX - l, ps,
{
    if ps.len() > 0 {
        lemma_eval_params_distinct(ps.drop_last(), args, m, l);
        let (m1, vs) = eval_params(ps.drop_last(), args, m, l)->Ok_0;
        if ps.len() <= args.len() {
            match ps.last() {
                Expr::Variable(lv) if args[ps.len() - 1].reference => {},
                _ => {
                    lemma_eval_distinct(ps.last(), m1, l);
                },
            }
        }
    }
}

/// The evaluation of a sequence leaves no address with two cells.
pub proof fn lemma_eval_seq_distinct(ts: Seq<Expr>, m: Machine, l: usize)
    requires
        distinct_keys(m.heap.cells),
        eval_seq(ts, m, l) is Ok,
    ensures
        distinct_keys(eval_seq(ts, m, l)->Ok_0.0.heap.cells),
    decreases usize::MAX - l, ts,
{
    if ts.len() > 0 {
        lemma_eval_seq_distinct(ts.drop_last(), m, l);
        lemma_eval_distinct(ts.last(), eval_seq(ts.drop_last(), m, l)->Ok_0.0, l);
    }
}

/// The steps of a run leave no address with two cells.
pub proof fn lemma_steps_distinct(ts: Seq<Expr>, x: Session)
    requires
        distinct_keys(x.state.heap.cells),
    ensures
        distinct_keys(steps(ts, x).0.state.heap.cells),
    decreases ts.len(),
{
    if ts.len() > 0 {
        lemma_steps_distinct(ts.drop_last(), x);
        let x1 = steps(ts.drop_last(), x).0;
        if steps(ts.drop_last(), x).1 is Ok && step(x1, ts.last()) is Ok {
            lemma_eval_distinct(ts.last(), x1.state, 0);
        }
    }
}

/// In every state that a run from the initial state reaches, each address
/// has one cell at most, and lies below the address that the next cell gets:
/// the states that `let_binds_a_new_cell` and
/// `assignment_frees_what_it_displaces` speak of.
pub proof fn run_keeps_cells_apart(ts: Seq<Expr>)
    ensures
        distinct_keys(steps(ts, initial()).0.state.heap.cells),
        fresh(steps(ts, initial()).0.state.heap),
{
    lemma_steps_distinct(ts, initial());
    run_keeps_heap_fresh(ts);
}

/// Binding values never lowers the address that the next cell gets.
pub proof fn lemma_bind_values_next(m: Machine, args: Seq<Param>, vs: Seq<Val>, l: usize)
    requires
        bind_values(m, args, vs, l) is Ok,
    ensures
        m.heap.next <= bind_values(m, args, vs, l)->Ok_0.heap.next,
    decreases vs.len(),
{
    if vs.len() > 0 {
        lemma_bind_values_next(m, args, vs.drop_last(), l);
    }
}

/// An evaluation never lowers the address that the next cell gets.
pub proof fn lemma_eval_next(t: Expr, m: Machine, l: usize)
    requires
        eval(t, m, l) is Ok,
    ensures
        m.heap.next <= eval(t, m, l)->Ok_0.0.heap.next,
    decreases usize::MAX - l, t,
{
    match t {
        Expr::Box { term } => {
            lemma_eval_next(*term, m, l);
        },
        Expr::Let { term, .. } => {
            lemma_eval_next(*term, m, l);
        },
        Expr::Assign { term, .. } => {
            lemma_eval_next(*term, m, l);
        },
        Expr::FunctionCall { name, params } => {
            let f = lookup(m.top().functions, name)->0;
            lemma_eval_params_next(params, f.args, m, l);
            let (m1, values) = eval_params(params, f.args, m, l)->Ok_0;
            let pushed = m1.push_frame(m.top().functions);
            lemma_bind_values_next(pushed, f.args, values, (l + 1) as usize);
            let m2 = bind_values(pushed, f.args, values, (l + 1) as usize)->Ok_0;
            lemma_eval_seq_next(f.body, m2, (l + 1) as usize);
        },
        _ => {},
    }
}

/// The evaluation of parameters never lowers the address that the next cell
/// gets.
pub proof fn lemma_eval_params_next(ps: Seq<Expr>, args: Seq<Param>, m: Machine, l: usize)
    requires
        eval_params(ps, args, m, l) is Ok,
    ensures
        m.heap.next <= eval_params(ps, args, m, l)->Ok_0.0.heap.next,
    decreases usize::MAX - l, ps,
{
    if ps.len() > 0 {
        lemma_eval_params_next(ps.drop_last(), args, m, l);
        let (m1, vs) = eval_params(ps.drop_last(), args, m, l)->Ok_0;
        if ps.len() <= args.len() {
            match ps.last() {
                Expr::Variable(lv) if args[ps.len() - 1].reference => {},
                _ => {
                    lemma_eval_next(ps.last(), m1, l);
                },
            }
        }
    }
}

/// The evaluation of a sequence never lowers the address that the next cell
/// gets.
pub proof fn lemma_eval_seq_next(ts: Seq<Expr>, m: Machine, l: usize)
    requires
        eval_seq(ts, m, l) is Ok,
    ensures
        m.heap.next <= eval_seq(ts, m, l)->Ok_0.0.heap.next,
    decreases usize::MAX - l, ts,
{
    if ts.len() > 0 {
        lemma_eval_seq_next(ts.drop_last(), m, l);
        lemma_eval_next(ts.last(), eval_seq(ts.drop_last(), m, l)->Ok_0.0, l);
    }
}

/// A cell of the pairs without the one at `i` is a cell of the pairs.
pub proof fn lemma_removed_bound(cells: Seq<(usize, Slot<Val>)>, i: int, a: usize)
    requires
        0 <= i < cells.len(),
        bound(cells.remove(i), a),
    ensures
        bound(cells, a),
{
    let rest = cells.remove(i);
    lemma_find(rest, a);
    lemma_find(cells, a);
    let j = find(rest, a)->0;
    if j < i {
        assert(rest[j] == cells[j]);
    } else {
        assert(rest[j] == cells[j + 1]);
    }
}

/// A cell that is left when a value has been dropped was there before.
pub proof fn lemma_dropped_bound(cells: Seq<(usize, Slot<Val>)>, v: Val, a: usize)
    requires
        dropped(cells, v) is Ok,
        bound(dropped(cells, v)->Ok_0, a),
    ensures
        bound(cells, a),
    decreases cells.len(),
{
    match v {
        Val::Reference(p) => {
            if p.owned {
                lemma_find(cells, p.location);
                let i = find(cells, p.location)->0;
                lemma_dropped_bound(cells.remove(i), cells[i].1.value, a);
                lemma_removed_bound(cells, i, a);
            }
        },
        _ => {},
    }
}

/// A cell that is left when a lifetime has been purged was there before.
pub proof fn lemma_purge_bound(cells: Seq<(usize, Slot<Val>)>, l: usize, a: usize)
    requires
        bound(purge(cells, l), a),
    ensures
        bound(cells, a),
{
    let kept = purge(cells, l);
    lemma_purge(cells, l);
    lemma_find(kept, a);
    lemma_find(cells, a);
    let j = find(kept, a)->0;
    let c = kept[j];
    assert(kept.contains(c));
    assert(cells.contains(c));
    let k = choose|k: int| 0 <= k < cells.len() && cells[k] == c;
    assert(cells[k].0 == a);
}

/// Binding values adds no cell below the next address.
pub proof fn lemma_bind_values_old(
    m: Machine,
    args: Seq<Param>,
    vs: Seq<Val>,
    l: usize,
    n: usize,
    a: usize,
)
    requires
        bind_values(m, args, vs, l) is Ok,
        a < n <= m.heap.next,
        bound(bind_values(m, args, vs, l)->Ok_0.heap.cells, a),
    ensures
        bound(m.heap.cells, a),
    decreases vs.len(),
{
    if vs.len() > 0 {
        let m1 = bind_values(m, args, vs.drop_last(), l)->Ok_0;
        lemma_bind_values_next(m, args, vs.drop_last(), l);
        if vs.len() <= args.len() {
            lemma_put(m1.heap.cells, m1.heap.next, Slot { value: vs.last(), lifetime: l }, a);
        }
        lemma_bind_values_old(m, args, vs.drop_last(), l, n, a);
    }
}

/// A write to a place adds no cell.
pub proof fn lemma_write_old(m: Machine, lv: Place, v: Val, a: usize)
    requires
        m.write(lv, v) is Ok,
        bound(m.write(lv, v)->Ok_0.heap.cells, a),
    ensures
        bound(m.heap.cells, a),
{
    let at = m.loc(lv)->Ok_0.location;
    let s = lookup(m.heap.cells, at)->0;
    lemma_put(m.heap.cells, at, Slot { value: v, lifetime: s.lifetime }, a);
}

/// An evaluation adds no cell below the address `n`, where `n` is at most
/// the address that the next cell gets.
pub proof fn lemma_eval_old(t: Expr, m: Machine, l: usize, n: usize, a: usize)
    requires
        eval(t, m, l) is Ok,
        a < n <= m.heap.next,
        bound(eval(t, m, l)->Ok_0.0.heap.cells, a),
    ensures
        bound(m.heap.cells, a),
    decreases usize::MAX - l, t,
{
    match t {
        Expr::Variable(lv) => {
            if lv.copies() == Ok::<bool, Fault>(false) {
                lemma_write_old(m, lv, Val::Undefined, a);
            }
        },
        Expr::Box { term } => {
            let (m2, v) = eval(*term, m, l)->Ok_0;
            lemma_eval_next(*term, m, l);
            lemma_put(m2.heap.cells, m2.heap.next, Slot { value: v, lifetime: 0 }, a);
            lemma_eval_old(*term, m, l, n, a);
        },
        Expr::Let { variable, term, .. } => {
            let (m2, v) = eval(*term, m, l)->Ok_0;
            lemma_eval_next(*term, m, l);
            lemma_put(m2.heap.cells, m2.heap.next, Slot { value: v, lifetime: l }, a);
            lemma_eval_old(*term, m, l, n, a);
        },
        Expr::Assign { variable, term } => {
            let (m2, v) = eval(*term, m, l)->Ok_0;
            let displaced = m2.read(variable)->Ok_0;
            let m3 = m2.drop(displaced)->Ok_0;
            lemma_write_old(m3, variable, v, a);
            lemma_dropped_bound(m2.heap.cells, displaced, a);
            lemma_eval_old(*term, m, l, n, a);
        },
        Expr::FunctionCall { name, params } => {
            let f = lookup(m.top().functions, name)->0;
            let (m1, values) = eval_params(params, f.args, m, l)->Ok_0;
            let pushed = m1.push_frame(m.top().functions);
            let m2 = bind_values(pushed, f.args, values, (l + 1) as usize)->Ok_0;
            let m3 = eval_seq(f.body, m2, (l + 1) as usize)->Ok_0.0;
            lemma_eval_params_next(params, f.args, m, l);
            lemma_bind_values_next(pushed, f.args, values, (l + 1) as usize);
            lemma_purge_bound(m3.heap.cells, (l + 1) as usize, a);
            lemma_eval_seq_old(f.body, m2, (l + 1) as usize, n, a);
            lemma_bind_values_old(pushed, f.args, values, (l + 1) as usize, n, a);
            lemma_eval_params_old(params, f.args, m, l, n, a);
        },
        _ => {},
    }
}

/// The evaluation of parameters adds no cell below the address `n`.
pub proof fn lemma_eval_params_old(
    ps: Seq<Expr>,
    args: Seq<Param>,
    m: Machine,
    l: usize,
    n: usize,
    a: usize,
)
    requires
        eval_params(ps, args, m, l) is Ok,
        a < n <= m.heap.next,
        bound(eval_params(ps, args, m, l)->Ok_0.0.heap.cells, a),
    ensures
        bound(m.heap.cells, a),
    decreases usize::MAX - l, ps,
{
    if ps.len() > 0 {
        let (m1, vs) = eval_params(ps.drop_last(), args, m, l)->Ok_0;
        lemma_eval_params_next(ps.drop_last(), args, m, l);
        if ps.len() <= args.len() {
            match ps.last() {
                Expr::Variable(lv) if args[ps.len() - 1].reference => {},
                _ => {
                    lemma_eval_old(ps.last(), m1, l, n, a);
                },
            }
        }
        lemma_eval_params_old(ps.drop_last(), args, m, l, n, a);
    }
}

/// The evaluation of a sequence adds no cell below the address `n`.
pub proof fn lemma_eval_seq_old(ts: Seq<Expr>, m: Machine, l: usize, n: usize, a: usize)
    requires
        eval_seq(ts, m, l) is Ok,
        a < n <= m.heap.next,
        bound(eval_seq(ts, m, l)->Ok_0.0.heap.cells, a),
    ensures
        bound(m.heap.cells, a),
    decreases usize::MAX - l, ts,
{
    if ts.len() > 0 {
        let m1 = eval_seq(ts.drop_last(), m, l)->Ok_0.0;
        lemma_eval_seq_next(ts.drop_last(), m, l);
        lemma_eval_old(ts.last(), m1, l, n, a);
        lemma_eval_seq_old(ts.drop_last(), m, l, n, a);
    }
}

/// No address is used twice. An evaluation never lowers the address that
/// the next cell gets and keeps every cell below it, and a cell that the
/// state did not have stands, after the evaluation, at an address that the
/// state had not handed out: one that no cell had, live or freed.
pub proof fn addresses_are_not_reused(t: Expr, m: Machine, l: usize, a: usize)
    requires
        fresh(m.heap),
        eval(t, m, l) is Ok,
        bound(eval(t, m, l)->Ok_0.0.heap.cells, a),
        !bound(m.heap.cells, a),
    ensures
        m.heap.next <= a < eval(t, m, l)->Ok_0.0.heap.next,
{
    let m2 = eval(t, m, l)->Ok_0.0;
    lemma_eval_fresh(t, m, l);
    lemma_find(m2.heap.cells, a);
    if a < m.heap.next {
        lemma_eval_old(t, m, l, m.heap.next, a);
    }
}

} // verus!
