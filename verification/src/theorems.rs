//! What holds of the type checker, the evaluator and the driver on every input.
use crate::ast::{Expr, Param, Place, Val};
use crate::constants::{Fault, TypeFault};
use crate::interpreter::{initial, step, steps, Session};
use crate::exclusivity::{boxes, lemma_unboxed_step, unboxed};
use crate::properties::{abstraction_safe, name_valid, names_valid, preservation, value_valid};
use crate::reduction::{bind_values, eval, eval_params, eval_seq};
use crate::state::{add_name, add_names, frame_names, purge, Machine};
use crate::table::{keys, lemma_put, lookup, put};
use crate::typecheck::{check, check_borrow};
use crate::typing::{
    borrowed, domain, moved, partial_slot, place_type, slot_of, updated, written, Gamma, Slot, Ty,
};
use vstd::prelude::*;

verus! {

/// No moved read. A variable whose type is undefined cannot be read: the
/// check of the read fails with `TypeMoved`, and names the type of the value
/// that was moved out.
pub proof fn moved_variable_cannot_be_read(
    g: Gamma,
    x: Seq<char>,
    annotation: Option<bool>,
    t: Ty,
    lifetime: usize,
    l: usize,
)
    requires
        lookup(g, x) == Some(Slot { value: Ty::Undefined(Box::new(t)), lifetime }),
    ensures
        check(Expr::Variable(Place::Variable { name: x, copyable: annotation }), g, l).1 == Err::<
            (Gamma, Ty),
            Fault,
        >(Fault::Type(TypeFault::TypeMoved(t))),
{
}

/// `purge` keeps exactly the cells of the other lifetimes.
pub proof fn lemma_purge(cells: Seq<(usize, Slot<Val>)>, l: usize)
    ensures
        forall|i: int|
            0 <= i < purge(cells, l).len() ==> (#[trigger] purge(cells, l)[i]).1.lifetime != l,
        forall|c: (usize, Slot<Val>)|
            purge(cells, l).contains(c) <==> cells.contains(c) && c.1.lifetime != l,
        purge(cells, l).len() <= cells.len(),
    decreases cells.len(),
{
    if cells.len() > 0 {
        let init = cells.drop_last();
        let last = cells.last();
        lemma_purge(init, l);
        let kept = purge(init, l);
        let all = purge(cells, l);
        assert forall|c: (usize, Slot<Val>)| all.contains(c) implies cells.contains(c)
            && c.1.lifetime != l by {
            let i = choose|i: int| 0 <= i < all.len() && all[i] == c;
            if last.1.lifetime != l && i == kept.len() {
                assert(cells[cells.len() - 1] == c);
            } else {
                assert(kept[i] == c);
                assert(kept.contains(c));
                assert(init.contains(c));
                let j = choose|j: int| 0 <= j < init.len() && init[j] == c;
                assert(cells[j] == c);
            }
        }
        assert forall|c: (usize, Slot<Val>)|
            cells.contains(c) && c.1.lifetime != l implies all.contains(c) by {
            let j = choose|j: int| 0 <= j < cells.len() && cells[j] == c;
            if j == cells.len() - 1 {
                assert(all[kept.len() as int] == c);
            } else {
                assert(init[j] == c);
                assert(init.contains(c));
                assert(kept.contains(c));
                let i = choose|i: int| 0 <= i < kept.len() && kept[i] == c;
                assert(all[i] == c);
            }
        }
    }
}

/// Drop completeness. After the lifetime `l` has been dropped no cell of the
/// store has the lifetime `l`, every cell of another lifetime is still
/// there, and the frame at the index `l` is gone: the frames below it stay
/// where they were and those above it move down by one.
pub proof fn drop_lifetime_is_complete(m: Machine, l: usize)
    requires
        l < m.stack.len(),
    ensures
        forall|i: int|
            0 <= i < m.drop_lifetime(l).heap.cells.len() ==> (#[trigger] m.drop_lifetime(
                l,
            ).heap.cells[i]).1.lifetime != l,
        forall|c: (usize, Slot<Val>)|
            m.drop_lifetime(l).heap.cells.contains(c) <==> m.heap.cells.contains(c)
                && c.1.lifetime != l,
        m.drop_lifetime(l).stack.len() == m.stack.len() - 1,
        forall|j: int| 0 <= j < l ==> m.drop_lifetime(l).stack[j] == m.stack[j],
        forall|j: int| l <= j < m.stack.len() - 1 ==> m.drop_lifetime(l).stack[j] == m.stack[j + 1],
{
    lemma_purge(m.heap.cells, l);
}

/// Move, then move. Where a read of a variable, or of what a variable's box
/// holds, moves the value out, a second read of the same place fails with
/// `TypeMoved` and names the type that the first read found.
pub proof fn second_move_fails(g: Gamma, lv: Place, l: usize)
    requires
        lv.depth() <= 1,
        check(Expr::Variable(lv), g, l).1 is Ok,
        !check(Expr::Variable(lv), g, l).1->Ok_0.1.copyable(),
    ensures
        ({
            let (g2, t) = check(Expr::Variable(lv), g, l).1->Ok_0;
            check(Expr::Variable(lv), g2, l).1 == Err::<(Gamma, Ty), Fault>(
                Fault::Type(TypeFault::TypeMoved(t)),
            )
        }),
{
    let x = lv.name();
    let s = lookup(g, x)->0;
    reveal_with_fuel(Ty::undefine, 2);
    reveal_with_fuel(Ty::can_undefine, 2);
    reveal_with_fuel(place_type, 2);
    reveal_with_fuel(Place::name, 2);
    reveal_with_fuel(Place::depth, 2);
    assert(place_type(g, lv) is Ok);
    let t = place_type(g, lv)->Ok_0;
    assert(!t.copyable());
    assert(moved(g, lv) is Ok);
    let g2 = moved(g, lv)->Ok_0;
    assert(check(Expr::Variable(lv), g, l).1 == Ok::<(Gamma, Ty), Fault>((g2, t)));
    lemma_put(g, x, Slot { value: s.value.undefine(lv), lifetime: s.lifetime }, x);
    assert(lookup(g2, x) == Some(Slot { value: s.value.undefine(lv), lifetime: s.lifetime }));
    match lv {
        Place::Variable { .. } => {
            assert(s.value == t);
            assert(slot_of(g2, x) == Err::<Slot<Ty>, Fault>(Fault::Type(TypeFault::TypeMoved(t))));
        },
        Place::Deref { var } => {
            assert(var.depth() == 0);
            assert(*var is Variable);
            assert(s.value == Ty::Box(Box::new(t)));
            assert(slot_of(g2, x) == Err::<Slot<Ty>, Fault>(Fault::Type(TypeFault::TypeMoved(t))));
        },
    }
}

/// A copying read leaves the state as it is, so that any number of reads
/// give the same value.
pub proof fn copy_read_is_pure(lv: Place, m: Machine, l: usize)
    requires
        lv.copyable() == Some(true),
        eval(Expr::Variable(lv), m, l) is Ok,
    ensures
        eval(Expr::Variable(lv), m, l)->Ok_0.0 == m,
        eval(Expr::Variable(lv), eval(Expr::Variable(lv), m, l)->Ok_0.0, l) == eval(
            Expr::Variable(lv),
            m,
            l,
        ),
{
}

/// The check of a read of a place of a copyable type leaves the environment
/// as it is.
pub proof fn copy_check_is_pure(lv: Place, g: Gamma, l: usize)
    requires
        check(Expr::Variable(lv), g, l).1 is Ok,
        check(Expr::Variable(lv), g, l).1->Ok_0.1.copyable(),
    ensures
        check(Expr::Variable(lv), g, l).1->Ok_0.0 == g,
        check(Expr::Variable(lv), g, l).0 == Expr::Variable(lv.annotated(Some(true))),
{
}

/// Shared borrows. While some binding holds a shared borrow of the variable
/// `x` and none holds a mutable one, every further shared borrow of `x`
/// succeeds and leaves the environment as it is, and every mutable borrow of
/// `x` fails.
pub proof fn shared_borrows_coexist(g: Gamma, x: Seq<char>, annotation: Option<bool>)
    requires
        borrowed(g, x, false),
        !borrowed(g, x, true),
    ensures
        check_borrow(false, Place::Variable { name: x, copyable: annotation }, g) == Ok::<
            (Gamma, Ty),
            Fault,
        >((g, Ty::Reference { var: Place::variable(x), mutable: false })),
        check_borrow(true, Place::Variable { name: x, copyable: annotation }, g) == Err::<
            (Gamma, Ty),
            Fault,
        >(Fault::Type(TypeFault::MutrefAlreadyBorrowedImmut(x))),
{
}

/// Safe abstraction and preservation, as the driver ensures them. After a
/// step that succeeds the environment describes the state, and the value
/// that the term evaluated to has the type that the check found.
pub proof fn step_preserves(x: Session, t: Expr)
    requires
        step(x, t) is Ok,
    ensures
        abstraction_safe(step(x, t)->Ok_0.state, step(x, t)->Ok_0.env) == Ok::<bool, Fault>(true),
        eval(t, x.state, 0) is Ok,
        check(t, x.env, 0).1 is Ok,
        value_valid(
            eval(t, x.state, 0)->Ok_0.0,
            eval(t, x.state, 0)->Ok_0.1,
            check(t, x.env, 0).1->Ok_0.1,
        ) == Ok::<bool, Fault>(true),
{
}

/// After every term of a run that has not failed, the environment describes
/// the state.
pub proof fn run_keeps_abstraction_safe(ts: Seq<Expr>, x: Session)
    requires
        ts.len() > 0,
        steps(ts, x).1 is Ok,
    ensures
        abstraction_safe(steps(ts, x).0.state, steps(ts, x).0.env) == Ok::<bool, Fault>(true),
{
    let x1 = steps(ts.drop_last(), x).0;
    step_preserves(x1, ts.last());
}

/// Preservation for the terms whose value does not depend on the store. A
/// statement (a `let`, an assignment, a declaration) gives the unit value
/// and has the unit type; a number has the numeric type; a borrow gives a
/// reference that is not owned and has a reference type whose variable the
/// innermost frame knows.
pub proof fn preservation_without_store(t: Expr, g: Gamma, m: Machine, l: usize)
    requires
        t is Value || t is Let || t is Assign || t is FunctionDeclaration || t is Ref,
        check(t, g, l).1 is Ok,
        eval(t, m, l) is Ok,
    ensures
        value_valid(eval(t, m, l)->Ok_0.0, eval(t, m, l)->Ok_0.1, check(t, g, l).1->Ok_0.1) == Ok::<
            bool,
            Fault,
        >(true),
{
    match t {
        Expr::Ref { mutable, var } => {
            lemma_loc_locates(m, var);
            crate::typing::lemma_erased_name(var);
        },
        _ => {},
    }
}

/// A place that has a cell starts from a variable that the innermost frame
/// knows.
pub proof fn lemma_loc_locates(m: Machine, lv: Place)
    requires
        m.loc(lv) is Ok,
    ensures
        m.locate(lv.name()) is Ok,
    decreases lv,
{
    match lv {
        Place::Variable { .. } => {},
        Place::Deref { var } => {
            lemma_loc_locates(m, *var);
        },
    }
}

/// Binding values keeps the stack as deep as it was.
pub proof fn lemma_bind_values_depth(m: Machine, args: Seq<Param>, vs: Seq<Val>, l: usize)
    requires
        bind_values(m, args, vs, l) is Ok,
    ensures
        bind_values(m, args, vs, l)->Ok_0.stack.len() == m.stack.len(),
    decreases vs.len(),
{
    if vs.len() > 0 {
        lemma_bind_values_depth(m, args, vs.drop_last(), l);
    }
}

/// An evaluation leaves the stack as deep as it found it: every frame that a
/// call pushes is gone when the call returns.
pub proof fn lemma_eval_depth(t: Expr, m: Machine, l: usize)
    requires
        eval(t, m, l) is Ok,
    ensures
        eval(t, m, l)->Ok_0.0.stack.len() == m.stack.len(),
    decreases usize::MAX - l, t,
{
    match t {
        Expr::Box { term } => {
            lemma_eval_depth(*term, m, l);
        },
        Expr::Let { term, .. } => {
            lemma_eval_depth(*term, m, l);
        },
        Expr::Assign { term, .. } => {
            lemma_eval_depth(*term, m, l);
        },
        Expr::FunctionCall { name, params } => {
            let f = lookup(m.top().functions, name)->0;
            lemma_eval_params_depth(params, f.args, m, l);
            let (m1, values) = eval_params(params, f.args, m, l)->Ok_0;
            let pushed = m1.push_frame(m.top().functions);
            lemma_bind_values_depth(pushed, f.args, values, (l + 1) as usize);
            let m2 = bind_values(pushed, f.args, values, (l + 1) as usize)->Ok_0;
            lemma_eval_seq_depth(f.body, m2, (l + 1) as usize);
        },
        _ => {},
    }
}

/// The evaluation of parameters leaves the stack as deep as it found it.
pub proof fn lemma_eval_params_depth(ps: Seq<Expr>, args: Seq<Param>, m: Machine, l: usize)
    requires
        eval_params(ps, args, m, l) is Ok,
    ensures
        eval_params(ps, args, m, l)->Ok_0.0.stack.len() == m.stack.len(),
    decreases usize::MAX - l, ps,
{
    if ps.len() > 0 {
        lemma_eval_params_depth(ps.drop_last(), args, m, l);
        let (m1, vs) = eval_params(ps.drop_last(), args, m, l)->Ok_0;
        if ps.len() <= args.len() {
            match ps.last() {
                Expr::Variable(lv) if args[ps.len() - 1].reference => {},
                _ => {
                    lemma_eval_depth(ps.last(), m1, l);
                },
            }
        }
    }
}

/// The evaluation of a sequence leaves the stack as deep as it found it.
pub proof fn lemma_eval_seq_depth(ts: Seq<Expr>, m: Machine, l: usize)
    requires
        eval_seq(ts, m, l) is Ok,
    ensures
        eval_seq(ts, m, l)->Ok_0.0.stack.len() == m.stack.len(),
    decreases usize::MAX - l, ts,
{
    if ts.len() > 0 {
        lemma_eval_seq_depth(ts.drop_last(), m, l);
        lemma_eval_depth(ts.last(), eval_seq(ts.drop_last(), m, l)->Ok_0.0, l);
    }
}

/// A run keeps the stack as deep as it was.
pub proof fn lemma_steps_depth(ts: Seq<Expr>, x: Session)
    ensures
        steps(ts, x).0.state.stack.len() == x.state.stack.len(),
    decreases ts.len(),
{
    if ts.len() > 0 {
        lemma_steps_depth(ts.drop_last(), x);
        let x1 = steps(ts.drop_last(), x).0;
        if steps(ts.drop_last(), x).1 is Ok && step(x1, ts.last()) is Ok {
            lemma_eval_depth(ts.last(), x1.state, 0);
        }
    }
}

/// The names that `add_names` gives are those of both sequences.
pub proof fn lemma_add_names(acc: Seq<Seq<char>>, ks: Seq<Seq<char>>)
    ensures
        add_names(acc, ks).to_set() == acc.to_set().union(ks.to_set()),
    decreases ks.len(),
{
    if ks.len() == 0 {
        assert(ks.to_set() =~= Set::empty());
        assert(add_names(acc, ks).to_set() =~= acc.to_set().union(ks.to_set()));
    } else {
        let init = ks.drop_last();
        lemma_add_names(acc, init);
        let before = add_names(acc, init);
        let after = add_name(before, ks.last());
        assert forall|x: Seq<char>|
            after.to_set().contains(x) == acc.to_set().union(ks.to_set()).contains(x) by {
            if after.contains(x) {
                let i = choose|i: int| 0 <= i < after.len() && after[i] == x;
                if i < before.len() {
                    assert(before.contains(x));
                    assert(before.to_set().contains(x));
                    if init.contains(x) {
                        let j = choose|j: int| 0 <= j < init.len() && init[j] == x;
                        assert(ks[j] == x);
                    }
                } else {
                    assert(ks[ks.len() - 1] == x);
                }
            }
            if acc.contains(x) {
                assert(before.to_set().contains(x));
                let i = choose|i: int| 0 <= i < before.len() && before[i] == x;
                assert(after[i] == x);
            }
            if ks.contains(x) {
                let j = choose|j: int| 0 <= j < ks.len() && ks[j] == x;
                if j < init.len() {
                    assert(init[j] == x);
                    assert(init.contains(x));
                    assert(before.to_set().contains(x));
                    let i = choose|i: int| 0 <= i < before.len() && before[i] == x;
                    assert(after[i] == x);
                } else {
                    if before.contains(x) {
                        let i = choose|i: int| 0 <= i < before.len() && before[i] == x;
                        assert(after[i] == x);
                    } else {
                        assert(after[before.len() as int] == x);
                    }
                }
            }
        }
        assert(after.to_set() =~= acc.to_set().union(ks.to_set()));
    }
}

/// Domain agreement. After every term of a run that starts from the initial
/// state and has not failed, the names that the type environment binds to
/// something other than a function are the names that the innermost frame
/// keeps.
pub proof fn run_keeps_domains_equal(ts: Seq<Expr>)
    requires
        ts.len() > 0,
        steps(ts, initial()).1 is Ok,
    ensures
        steps(ts, initial()).0.state.stack.len() == 1,
        domain(steps(ts, initial()).0.env).to_set() == keys(
            steps(ts, initial()).0.state.top().locations,
        ).to_set(),
{
    let x = steps(ts, initial()).0;
    run_keeps_abstraction_safe(ts, initial());
    lemma_steps_depth(ts, initial());
    let stack = x.state.stack;
    assert(stack.drop_last() =~= Seq::empty());
    assert(frame_names(stack.drop_last()) =~= Seq::empty());
    lemma_add_names(Seq::empty(), keys(stack.last().locations));
    assert(Seq::<Seq<char>>::empty().to_set() =~= Set::empty());
    assert(x.state.dom().to_set() =~= keys(stack.last().locations).to_set());
}

/// Where the names up to `n` are valid, each of them is.
pub proof fn lemma_names_valid(m: Machine, g: Gamma, d: Seq<Seq<char>>, n: nat, i: int)
    requires
        names_valid(m, g, d, n) == Ok::<bool, Fault>(true),
        0 <= i < n,
    ensures
        name_valid(m, g, d[i]) == Ok::<bool, Fault>(true),
    decreases n,
{
    if i < n - 1 {
        lemma_names_valid(m, g, d, (n - 1) as nat, i);
    }
}

/// The cell of a place does not depend on the annotation of the place.
pub proof fn lemma_loc_annotated(m: Machine, lv: Place, c: Option<bool>)
    ensures
        m.loc(lv.annotated(c)) == m.loc(lv),
        lv.annotated(c).name() == lv.name(),
        lv.annotated(c).copyable() == c,
    decreases lv,
{
    match lv {
        Place::Variable { .. } => {},
        Place::Deref { var } => {
            lemma_loc_annotated(m, *var, c);
        },
    }
}

/// Where the cell of a name holds a valid value, so does the cell of every
/// place inside the boxes of the name.
pub proof fn lemma_boxed_value(m: Machine, g: Gamma, lv: Place)
    requires
        name_valid(m, g, lv.name()) == Ok::<bool, Fault>(true),
        boxes(partial_slot(g, lv.name())->Ok_0.value) >= lv.depth(),
    ensures
        m.read(lv) is Ok,
        value_valid(
            m,
            m.read(lv)->Ok_0,
            unboxed(partial_slot(g, lv.name())->Ok_0.value, lv.depth()),
        ) == Ok::<bool, Fault>(true),
    decreases lv,
{
    match lv {
        Place::Variable { .. } => {},
        Place::Deref { var } => {
            lemma_boxed_value(m, g, *var);
            lemma_unboxed_step(partial_slot(g, lv.name())->Ok_0.value, var.depth());
        },
    }
}

/// A write through a mutable reference is a write to the borrowed variable.
/// Where `y` holds a mutable reference to the variable `x`, and `x` holds a
/// value, a write of the type `t` to `*y` binds `x` to `t` at the lifetime
/// that `x` had, and leaves `y` as it was.
pub proof fn write_through_mutable_reference(
    g: Gamma,
    y: Seq<char>,
    x: Seq<char>,
    t: Ty,
    fuel: nat,
)
    requires
        fuel > 0,
        slot_of(g, y) is Ok,
        slot_of(g, y)->Ok_0.value == (Ty::Reference { var: Place::variable(x), mutable: true }),
        slot_of(g, x) is Ok,
    ensures
        written(g, Place::Deref { var: Box::new(Place::variable(y)) }, t, fuel) == Ok::<
            Gamma,
            Fault,
        >(
            put(
                put(g, x, Slot { value: t, lifetime: slot_of(g, x)->Ok_0.lifetime }),
                y,
                slot_of(g, y)->Ok_0,
            ),
        ),
{
    let lv = Place::Deref { var: Box::new(Place::variable(y)) };
    let r = Place::variable(x);
    let sy = slot_of(g, y)->Ok_0;
    let sx = slot_of(g, x)->Ok_0;
    let g3 = put(g, x, Slot { value: t, lifetime: sx.lifetime });
    assert(lv.name() == y) by {
        reveal_with_fuel(Place::name, 2);
    }
    assert(updated(g, r, sx.value, t, (fuel - 1) as nat) == Ok::<(Gamma, Ty), Fault>((g, t)));
    assert(written(g, r, t, (fuel - 1) as nat) == Ok::<Gamma, Fault>(g3));
    assert(updated(g, lv, sy.value, t, fuel) == Ok::<(Gamma, Ty), Fault>((g3, sy.value)));
}

/// A write through a shared reference is refused, whatever the reference
/// borrows.
pub proof fn write_through_shared_reference(g: Gamma, y: Seq<char>, r: Place, t: Ty, fuel: nat)
    requires
        slot_of(g, y) is Ok,
        slot_of(g, y)->Ok_0.value == (Ty::Reference { var: r, mutable: false }),
    ensures
        written(g, Place::Deref { var: Box::new(Place::variable(y)) }, t, fuel) == Err::<
            Gamma,
            Fault,
        >(Fault::SharedTarget(r.name())),
{
    let lv = Place::Deref { var: Box::new(Place::variable(y)) };
    assert(lv.name() == y) by {
        reveal_with_fuel(Place::name, 2);
    }
    assert(updated(g, lv, slot_of(g, y)->Ok_0.value, t, fuel) == Err::<(Gamma, Ty), Fault>(
        Fault::SharedTarget(r.name()),
    ));
}

} // verus!
