//! Ownership: each box is held by one variable. With that, safe abstraction
//! and preservation hold of every term that calls no function and reaches
//! no place through a reference, whatever it moves or overwrites.
use crate::abstraction::{
    abstraction_kept_by_allocation, abstraction_kept_by_declaration,
    abstraction_kept_by_definition, knows_more, lemma_domain_put, lemma_domain_put_function,
    lemma_safe,
};
use crate::ast::{Expr, Place, Val};
use crate::constants::Fault;
use crate::exclusivity::{
    boxes, lemma_place_type_boxed, lemma_typed_slot, lemma_unboxed_step, lemma_undefine, unboxed,
};
use crate::preservation::{
    leads, lemma_cycle_has_no_type, lemma_dropped_fresh, lemma_reaches_leads,
    lemma_reads_live_cells, lemma_write_fresh, reaches,
};
use crate::properties::{abstraction_safe, name_valid, value_valid};
use crate::reduction::{define, eval};
use crate::state::{
    dropped, fresh, lemma_fresh_next, lemma_put_fresh, Heap, Machine, Routine,
};
use crate::table::{
    distinct_keys, find, lemma_find, lemma_put, lemma_put_distinct, lemma_removed, lookup, put,
};
use crate::annotation::{lemma_check_again, lemma_check_seq_len, lemma_check_seq_take};
use crate::interpreter::{initial, ran, step, steps, Session};
use crate::theorems::{lemma_eval_depth, lemma_loc_annotated, lemma_loc_locates};
use crate::typecheck::{check, check_seq, function_type};
use crate::typing::{
    domain, lemma_erased_name, partial_slot, slot_of, updated, written, Gamma, Slot, Ty,
};
use vstd::prelude::*;

verus! {

/// Whether `v` has the shape of the type `t` all the way down: under a box
/// type an owning reference to a live cell, and under an undefined type the
/// undefined value.
pub open spec fn strict(m: Machine, v: Val, t: Ty) -> bool
    decreases t,
{
    match t {
        Ty::Undefined(_) => v is Undefined,
        Ty::Box(inner) => match v {
            Val::Reference(p) => p.owned && match m.heap.read(p.location) {
                Ok(held) => strict(m, held, *inner),
                Err(_) => false,
            },
            _ => false,
        },
        _ => true,
    }
}

/// Whether `v` is a valid value of the type `t`, of its shape all the way
/// down.
pub open spec fn sound(m: Machine, v: Val, t: Ty) -> bool {
    value_valid(m, v, t) == Ok::<bool, Fault>(true) && strict(m, v, t)
}

/// Whether the states agree on every cell outside `d`, and `m2` knows every
/// variable that `m` knows.
pub open spec fn agree(m: Machine, m2: Machine, d: Set<usize>) -> bool {
    knows_more(m, m2) && forall|b: usize|
        !d.contains(b) ==> #[trigger] lookup(m2.heap.cells, b) == lookup(m.heap.cells, b)
}

/// Whether deciding that `v` has the type `t` reads no cell of `d`.
pub open spec fn avoids(m: Machine, v: Val, t: Ty, d: Set<usize>) -> bool {
    forall|b: usize| d.contains(b) ==> !#[trigger] reaches(m, v, t, b)
}

/// A sound value stays sound, and reads the same cells, in a state that
/// agrees on the cells that the decision reads.
pub proof fn lemma_agree(m: Machine, m2: Machine, d: Set<usize>, v: Val, t: Ty)
    requires
        sound(m, v, t),
        agree(m, m2, d),
        avoids(m, v, t, d),
    ensures
        sound(m2, v, t),
        forall|b: usize| reaches(m2, v, t, b) == reaches(m, v, t, b),
    decreases t,
{
    match t {
        Ty::Box(inner) => {
            let p = v->Reference_0;
            let held = m.heap.read(p.location)->Ok_0;
            assert(reaches(m, v, t, p.location));
            assert(!d.contains(p.location));
            assert(lookup(m2.heap.cells, p.location) == lookup(m.heap.cells, p.location));
            assert forall|b: usize| d.contains(b) implies !#[trigger] reaches(
                m,
                held,
                *inner,
                b,
            ) by {
                assert(!reaches(m, v, t, b));
            }
            lemma_agree(m, m2, d, held, *inner);
            assert forall|b: usize| reaches(m2, v, t, b) == reaches(m, v, t, b) by {
                assert(reaches(m2, held, *inner, b) == reaches(m, held, *inner, b));
            }
        },
        Ty::Reference { var, .. } => {
            assert(m.locate(var.name()) is Ok);
        },
        _ => {},
    }
}

/// A sound value of a type with `n` boxes or more is the first of `n`
/// owning references; the cells they lead to are read by the decision, and
/// the last of them holds a sound value of what the boxes hold.
pub proof fn lemma_chain(m: Machine, v: Val, t: Ty, n: nat) -> (a: usize)
    requires
        sound(m, v, t),
        0 < n <= boxes(t),
    ensures
        leads(m, v, a, n),
        reaches(m, v, t, a),
        m.heap.read(a) is Ok,
        sound(m, m.heap.read(a)->Ok_0, crate::exclusivity::unboxed(t, n)),
        forall|b: usize|
            reaches(m, m.heap.read(a)->Ok_0, crate::exclusivity::unboxed(t, n), b) ==> reaches(
                m,
                v,
                t,
                b,
            ),
    decreases n,
{
    let p = v->Reference_0;
    let inner = *t->Box_0;
    let held = m.heap.read(p.location)->Ok_0;
    if n == 1 {
        assert(crate::exclusivity::unboxed(t, 1) == crate::exclusivity::unboxed(inner, 0));
        assert(crate::exclusivity::unboxed(inner, 0) == inner);
        assert forall|b: usize| reaches(m, held, inner, b) implies reaches(m, v, t, b) by {}
        p.location
    } else {
        let a = lemma_chain(m, held, inner, (n - 1) as nat);
        assert(crate::exclusivity::unboxed(t, n) == crate::exclusivity::unboxed(
            inner,
            (n - 1) as nat,
        ));
        let last = m.heap.read(a)->Ok_0;
        let rest = crate::exclusivity::unboxed(t, n);
        assert forall|b: usize| reaches(m, last, rest, b) implies reaches(m, v, t, b) by {
            assert(reaches(m, held, inner, b));
        }
        a
    }
}

/// The owning references that lead from a sound value to a cell are as
/// many as they are: no cell is reached in two numbers of steps.
pub proof fn lemma_acyclic(m: Machine, v: Val, t: Ty, a: usize, j: nat, k: nat)
    requires
        sound(m, v, t),
        leads(m, v, a, j),
        leads(m, v, a, k),
    ensures
        j == k,
    decreases t,
{
    let p = v->Reference_0;
    match t {
        Ty::Box(inner) => {
            let held = m.heap.read(p.location)->Ok_0;
            if j == 1 && k > 1 {
                lemma_cycle_has_no_type(m, held, *inner, a, (k - 1) as nat, (k - 1) as nat);
            } else if k == 1 && j > 1 {
                lemma_cycle_has_no_type(m, held, *inner, a, (j - 1) as nat, (j - 1) as nat);
            } else if j > 1 && k > 1 {
                lemma_acyclic(m, held, *inner, a, (j - 1) as nat, (k - 1) as nat);
            }
        },
        _ => {},
    }
}

/// The cell that owning references lead to in a number of steps is one.
pub proof fn lemma_leads_once(m: Machine, v: Val, a: usize, b: usize, n: nat)
    requires
        leads(m, v, a, n),
        leads(m, v, b, n),
    ensures
        a == b,
    decreases n,
{
    if n > 1 {
        let p = v->Reference_0;
        lemma_leads_once(m, m.heap.read(p.location)->Ok_0, a, b, (n - 1) as nat);
    }
}

/// The cell of a place inside the boxes of a variable is where as many
/// owning references lead as the place has dereferences, from the value of
/// the variable.
pub proof fn lemma_loc_leads(m: Machine, lv: Place, t: Ty)
    requires
        m.locate(lv.name()) is Ok,
        m.heap.read(m.locate(lv.name())->Ok_0.location) is Ok,
        sound(m, m.heap.read(m.locate(lv.name())->Ok_0.location)->Ok_0, t),
        0 < lv.depth() <= boxes(t),
    ensures
        m.loc(lv) is Ok,
        leads(
            m,
            m.heap.read(m.locate(lv.name())->Ok_0.location)->Ok_0,
            m.loc(lv)->Ok_0.location,
            lv.depth(),
        ),
    decreases lv,
{
    let v = m.heap.read(m.locate(lv.name())->Ok_0.location)->Ok_0;
    match lv {
        Place::Variable { .. } => {},
        Place::Deref { var } => {
            if var.depth() == 0 {
                assert(*var is Variable);
            } else {
                lemma_loc_leads(m, *var, t);
                let a = lemma_chain(m, v, t, var.depth());
                lemma_leads_once(m, v, a, m.loc(*var)->Ok_0.location, var.depth());
                crate::exclusivity::lemma_unboxed_step(t, var.depth());
                lemma_leads_step(m, v, a, var.depth());
            }
        },
    }
}

/// Where owning references lead to a cell that holds an owning reference,
/// one more leads to the cell of that reference.
pub proof fn lemma_leads_step(m: Machine, v: Val, a: usize, n: nat)
    requires
        n > 0,
        leads(m, v, a, n),
        m.heap.read(a) is Ok,
        m.heap.read(a)->Ok_0 is Reference,
        m.heap.read(a)->Ok_0->Reference_0.owned,
    ensures
        leads(m, v, m.heap.read(a)->Ok_0->Reference_0.location, n + 1),
    decreases n,
{
    reveal_with_fuel(leads, 3);
    let p = v->Reference_0;
    if n > 1 {
        lemma_leads_step(m, m.heap.read(p.location)->Ok_0, a, (n - 1) as nat);
    }
}

/// Owning references compose: where some lead from a value to a cell, and
/// some from what the cell holds to another, together they lead from the
/// value to the other.
pub proof fn lemma_leads_on(m: Machine, v: Val, a: usize, n: nat, b: usize, k: nat)
    requires
        leads(m, v, a, n),
        m.heap.read(a) is Ok,
        leads(m, m.heap.read(a)->Ok_0, b, k),
    ensures
        leads(m, v, b, n + k),
    decreases n,
{
    let p = v->Reference_0;
    if n > 1 {
        lemma_leads_on(m, m.heap.read(p.location)->Ok_0, a, (n - 1) as nat, b, k);
    }
}

/// The type `t` with what is inside `k` boxes undefined.
pub open spec fn emptied(t: Ty, k: nat) -> Ty
    decreases k,
{
    if k == 0 {
        Ty::Undefined(Box::new(t))
    } else {
        match t {
            Ty::Box(inner) => Ty::Box(Box::new(emptied(*inner, (k - 1) as nat))),
            _ => t,
        }
    }
}

/// The type that a move leaves is the type with the moved part undefined.
pub proof fn lemma_undefine_emptied(t: Ty, lv: Place)
    requires
        t.can_undefine(lv),
    ensures
        t.undefine(lv) == emptied(t, lv.depth()),
    decreases lv,
{
    match lv {
        Place::Variable { .. } => {},
        Place::Deref { var } => {
            lemma_undefine_emptied(*t->Box_0, *var);
        },
    }
}

/// A cell that holds a sound value is not read by the decision on that
/// value.
pub proof fn lemma_not_in_own_chain(m: Machine, a: usize, t: Ty)
    requires
        m.heap.read(a) is Ok,
        sound(m, m.heap.read(a)->Ok_0, t),
    ensures
        !reaches(m, m.heap.read(a)->Ok_0, t, a),
{
    let v = m.heap.read(a)->Ok_0;
    if reaches(m, v, t, a) {
        let n = lemma_reaches_leads(m, v, t, a);
        lemma_cycle_has_no_type(m, v, t, a, n, n);
    }
}

/// The cell of a variable.
pub open spec fn cell(m: Machine, x: Seq<char>) -> usize {
    m.locate(x)->Ok_0.location
}

/// What the cell of a variable holds.
pub open spec fn content(m: Machine, x: Seq<char>) -> Val {
    m.heap.read(cell(m, x))->Ok_0
}

/// The type that the environment gives a variable.
pub open spec fn ty(g: Gamma, x: Seq<char>) -> Ty {
    partial_slot(g, x)->Ok_0.value
}

/// Whether the cell at `b` belongs to the variable `x`: it is the cell of
/// `x`, or a cell of the boxes that the value of `x` owns.
pub open spec fn owns(m: Machine, g: Gamma, x: Seq<char>, b: usize) -> bool {
    cell(m, x) == b || reaches(m, content(m, x), ty(g, x), b)
}

/// Whether no cell belongs to two variables.
pub open spec fn held_apart(m: Machine, g: Gamma) -> bool {
    forall|x: Seq<char>, y: Seq<char>, b: usize|
        #![trigger owns(m, g, x, b), owns(m, g, y, b)]
        domain(g).contains(x) && domain(g).contains(y) && x != y ==> !(owns(m, g, x, b) && owns(
            m,
            g,
            y,
            b,
        ))
}

/// Whether the cell of no variable is among the boxes that the variable
/// owns.
pub open spec fn cells_apart(m: Machine, g: Gamma) -> bool {
    forall|x: Seq<char>|
        domain(g).contains(x) ==> !reaches(m, content(m, x), ty(g, x), #[trigger] cell(m, x))
}

/// Whether every variable holds a value of the shape of its type.
pub open spec fn all_strict(m: Machine, g: Gamma) -> bool {
    forall|x: Seq<char>| domain(g).contains(x) ==> strict(m, #[trigger] content(m, x), ty(g, x))
}

/// Whether the cells that the decision on `v` reads belong to no variable.
pub open spec fn apart(m: Machine, g: Gamma, v: Val, t: Ty) -> bool {
    forall|y: Seq<char>, b: usize|
        #![trigger owns(m, g, y, b)]
        domain(g).contains(y) && reaches(m, v, t, b) ==> !owns(m, g, y, b)
}

/// The invariant of ownership: the environment describes the state, the
/// heap is fresh and has one cell for each address, every variable holds a
/// value of the shape of its type, and no cell belongs to two variables.
pub open spec fn owned(m: Machine, g: Gamma) -> bool {
    &&& abstraction_safe(m, g) == Ok::<bool, Fault>(true)
    &&& fresh(m.heap)
    &&& distinct_keys(m.heap.cells)
    &&& held_apart(m, g)
    &&& cells_apart(m, g)
    &&& all_strict(m, g)
}

/// What ownership says of one variable: it has a cell, the cell holds a
/// sound value of the type of the variable, and the cell is not among the
/// boxes that the value owns.
pub proof fn lemma_owned_name(m: Machine, g: Gamma, x: Seq<char>)
    requires
        owned(m, g),
        domain(g).contains(x),
    ensures
        m.locate(x) is Ok,
        m.heap.read(cell(m, x)) is Ok,
        lookup(m.heap.cells, cell(m, x)) is Some,
        partial_slot(g, x) is Ok,
        !(ty(g, x) is Function),
        sound(m, content(m, x), ty(g, x)),
        !reaches(m, content(m, x), ty(g, x), cell(m, x)),
{
    lemma_safe(m, g);
    assert(name_valid(m, g, x) == Ok::<bool, Fault>(true));
    assert(strict(m, content(m, x), ty(g, x)));
}

/// A variable none of whose cells is changed keeps them: in a state that
/// agrees outside the cells `d`, none of which belongs to the variable `y`,
/// and that keeps `y` where it was, `y` has the value and the boxes that it
/// had.
pub proof fn lemma_name_kept(
    m: Machine,
    g: Gamma,
    m2: Machine,
    g2: Gamma,
    d: Set<usize>,
    y: Seq<char>,
)
    requires
        owned(m, g),
        domain(g).contains(y),
        agree(m, m2, d),
        m2.locate(y) == m.locate(y),
        forall|b: usize| d.contains(b) ==> !#[trigger] owns(m, g, y, b),
        partial_slot(g2, y) == partial_slot(g, y),
    ensures
        cell(m2, y) == cell(m, y),
        content(m2, y) == content(m, y),
        ty(g2, y) == ty(g, y),
        sound(m2, content(m2, y), ty(g2, y)),
        name_valid(m2, g2, y) == Ok::<bool, Fault>(true),
        forall|b: usize| owns(m2, g2, y, b) == owns(m, g, y, b),
        forall|b: usize|
            reaches(m2, content(m2, y), ty(g2, y), b) == reaches(m, content(m, y), ty(g, y), b),
        !reaches(m2, content(m2, y), ty(g2, y), cell(m2, y)),
{
    lemma_owned_name(m, g, y);
    let c = cell(m, y);
    let v = content(m, y);
    let t = ty(g, y);
    assert(owns(m, g, y, c));
    assert(!d.contains(c));
    assert(lookup(m2.heap.cells, c) == lookup(m.heap.cells, c));
    assert forall|b: usize| d.contains(b) implies !#[trigger] reaches(m, v, t, b) by {
        if reaches(m, v, t, b) {
            assert(owns(m, g, y, b));
        }
    }
    lemma_agree(m, m2, d, v, t);
    assert forall|b: usize| owns(m2, g2, y, b) == owns(m, g, y, b) by {
        assert(reaches(m2, v, t, b) == reaches(m, v, t, b));
    }
}

/// `lemma_name_kept`, where the cells that change belong to another
/// variable.
pub proof fn lemma_other_kept(
    m: Machine,
    g: Gamma,
    m2: Machine,
    g2: Gamma,
    d: Set<usize>,
    x: Seq<char>,
    y: Seq<char>,
)
    requires
        owned(m, g),
        domain(g).contains(x),
        domain(g).contains(y),
        x != y,
        agree(m, m2, d),
        m2.stack == m.stack,
        forall|b: usize| d.contains(b) ==> #[trigger] owns(m, g, x, b),
        partial_slot(g2, y) == partial_slot(g, y),
    ensures
        cell(m2, y) == cell(m, y),
        content(m2, y) == content(m, y),
        ty(g2, y) == ty(g, y),
        sound(m2, content(m2, y), ty(g2, y)),
        name_valid(m2, g2, y) == Ok::<bool, Fault>(true),
        forall|b: usize| owns(m2, g2, y, b) == owns(m, g, y, b),
        forall|b: usize|
            reaches(m2, content(m2, y), ty(g2, y), b) == reaches(m, content(m, y), ty(g, y), b),
        !reaches(m2, content(m2, y), ty(g2, y), cell(m2, y)),
{
    assert forall|b: usize| d.contains(b) implies !#[trigger] owns(m, g, y, b) by {
        assert(owns(m, g, x, b));
    }
    lemma_name_kept(m, g, m2, g2, d, y);
}

/// Ownership is kept where every variable still has a cell with a sound
/// value, and owns no cell that it did not own.
pub proof fn lemma_owned_kept(m: Machine, g: Gamma, m2: Machine, g2: Gamma)
    requires
        owned(m, g),
        fresh(m2.heap),
        distinct_keys(m2.heap.cells),
        m2.dom().to_set() == domain(g2).to_set(),
        forall|y: Seq<char>| domain(g2).contains(y) ==> domain(g).contains(y),
        forall|y: Seq<char>|
            domain(g2).contains(y) ==> #[trigger] name_valid(m2, g2, y) == Ok::<bool, Fault>(true),
        forall|y: Seq<char>|
            domain(g2).contains(y) ==> strict(m2, #[trigger] content(m2, y), ty(g2, y)),
        forall|y: Seq<char>, b: usize|
            domain(g2).contains(y) && #[trigger] owns(m2, g2, y, b) ==> owns(m, g, y, b),
        forall|y: Seq<char>|
            domain(g2).contains(y) ==> !reaches(
                m2,
                content(m2, y),
                ty(g2, y),
                #[trigger] cell(m2, y),
            ),
    ensures
        owned(m2, g2),
{
    lemma_safe(m2, g2);
    assert forall|x: Seq<char>, y: Seq<char>, b: usize|
        #![trigger owns(m2, g2, x, b), owns(m2, g2, y, b)]
        domain(g2).contains(x) && domain(g2).contains(y) && x != y implies !(owns(m2, g2, x, b)
            && owns(m2, g2, y, b)) by {
        if owns(m2, g2, x, b) && owns(m2, g2, y, b) {
            assert(owns(m, g, x, b) && owns(m, g, y, b));
        }
    }
}

/// A cell that the store lacks belongs to no variable.
pub proof fn lemma_unowned(m: Machine, g: Gamma, y: Seq<char>, a: usize)
    requires
        owned(m, g),
        domain(g).contains(y),
        lookup(m.heap.cells, a) is None,
    ensures
        !owns(m, g, y, a),
{
    lemma_owned_name(m, g, y);
    lemma_reads_live_cells(m, content(m, y), ty(g, y), a);
}

/// The state with a new cell agrees with the state before on every other
/// cell.
pub proof fn lemma_agree_put(m: Machine, m2: Machine, a: usize, s: Slot<Val>)
    requires
        knows_more(m, m2),
        m2.heap.cells == put(m.heap.cells, a, s),
    ensures
        agree(m, m2, set![a]),
        lookup(m2.heap.cells, a) == Some(s),
{
    lemma_put(m.heap.cells, a, s, a);
    assert forall|b: usize| !set![a].contains(b) implies #[trigger] lookup(m2.heap.cells, b)
        == lookup(m.heap.cells, b) by {
        lemma_put(m.heap.cells, a, s, b);
    }
}

/// Ownership and boxes. A new cell for a sound value whose boxes belong to
/// no variable keeps ownership; the owning reference to the cell is a sound
/// value of the box type, and its boxes belong to no variable.
pub proof fn lemma_boxed(m: Machine, g: Gamma, v: Val, t: Ty, l: usize)
    requires
        owned(m, g),
        sound(m, v, t),
        apart(m, g, v, t),
        m.heap.next < usize::MAX,
    ensures
        owned(m.insert(l, v), g),
        sound(m.insert(l, v), Val::Reference(m.heap.fresh()), Ty::Box(Box::new(t))),
        apart(m.insert(l, v), g, Val::Reference(m.heap.fresh()), Ty::Box(Box::new(t))),
{
    let m2 = m.insert(l, v);
    let a = m.heap.next;
    let s = Slot { value: v, lifetime: l };
    let d = set![a];
    lemma_fresh_next(m.heap);
    lemma_agree_put(m, m2, a, s);
    lemma_reads_live_cells(m, v, t, a);
    lemma_agree(m, m2, d, v, t);
    abstraction_kept_by_allocation(m, g, v, l);
    lemma_put_fresh(m.heap, a, s, (a + 1) as usize);
    lemma_put_distinct(m.heap.cells, a, s);
    lemma_safe(m2, g);
    assert forall|y: Seq<char>| domain(g).contains(y) implies strict(
        m2,
        #[trigger] content(m2, y),
        ty(g, y),
    ) by {
        lemma_unowned(m, g, y, a);
        lemma_name_kept(m, g, m2, g, d, y);
    }
    assert forall|y: Seq<char>, b: usize|
        domain(g).contains(y) && #[trigger] owns(m2, g, y, b) implies owns(m, g, y, b) by {
        lemma_unowned(m, g, y, a);
        lemma_name_kept(m, g, m2, g, d, y);
    }
    assert forall|y: Seq<char>| domain(g).contains(y) implies !reaches(
        m2,
        content(m2, y),
        ty(g, y),
        #[trigger] cell(m2, y),
    ) by {
        lemma_unowned(m, g, y, a);
        lemma_name_kept(m, g, m2, g, d, y);
    }
    lemma_owned_kept(m, g, m2, g);
    let r = Val::Reference(m.heap.fresh());
    let bt = Ty::Box(Box::new(t));
    assert forall|y: Seq<char>, b: usize|
        #![trigger owns(m2, g, y, b)]
        domain(g).contains(y) && reaches(m2, r, bt, b) implies !owns(m2, g, y, b) by {
        lemma_unowned(m, g, y, a);
        lemma_name_kept(m, g, m2, g, d, y);
        assert(owns(m2, g, y, b) == owns(m, g, y, b));
        if b != a {
            assert(reaches(m2, v, t, b));
            assert(reaches(m, v, t, b));
        }
    }
}

/// Ownership and definitions. The definition of a variable with a sound
/// value whose boxes belong to no variable keeps ownership.
pub proof fn lemma_defined(m: Machine, g: Gamma, x: Seq<char>, v: Val, t: Ty, l: usize)
    requires
        owned(m, g),
        sound(m, v, t),
        apart(m, g, v, t),
        define(m, x, v, l) is Ok,
    ensures
        owned(define(m, x, v, l)->Ok_0, put(g, x, Slot { value: t, lifetime: l })),
{
    let m2 = define(m, x, v, l)->Ok_0;
    let bound = Slot { value: t, lifetime: l };
    let g2 = put(g, x, bound);
    let a = m.heap.next;
    let s = Slot { value: v, lifetime: l };
    let d = set![a];
    let p = m.heap.fresh();
    lemma_fresh_next(m.heap);
    assert(knows_more(m, m2)) by {
        assert forall|z: Seq<char>| (#[trigger] m.locate(z)) is Ok implies m2.locate(z) is Ok by {
            lemma_put(m.top().locations, x, p, z);
        }
    }
    lemma_agree_put(m, m2, a, s);
    lemma_reads_live_cells(m, v, t, a);
    lemma_agree(m, m2, d, v, t);
    abstraction_kept_by_definition(m, g, x, v, t, l);
    lemma_put_fresh(m.heap, a, s, (a + 1) as usize);
    lemma_put_distinct(m.heap.cells, a, s);
    lemma_safe(m2, g2);
    lemma_put(g, x, bound, x);
    lemma_put(m.top().locations, x, p, x);
    assert(cell(m2, x) == a);
    assert(content(m2, x) == v);
    assert(ty(g2, x) == t);
    assert forall|y: Seq<char>| domain(g2).contains(y) && y != x implies domain(g).contains(y)
        && cell(m2, y) == cell(m, y) && content(m2, y) == content(m, y) && ty(g2, y) == ty(g, y)
        && strict(m2, #[trigger] content(m2, y), ty(g2, y)) && !reaches(
        m2,
        content(m2, y),
        ty(g2, y),
        cell(m2, y),
    ) && (forall|b: usize| owns(m2, g2, y, b) == owns(m, g, y, b)) by {
        lemma_domain_put(g, x, bound, y);
        lemma_put(g, x, bound, y);
        lemma_put(m.top().locations, x, p, y);
        lemma_unowned(m, g, y, a);
        lemma_name_kept(m, g, m2, g2, d, y);
    }
    assert forall|y: Seq<char>| domain(g2).contains(y) implies strict(
        m2,
        #[trigger] content(m2, y),
        ty(g2, y),
    ) by {}
    assert forall|y: Seq<char>| domain(g2).contains(y) implies !reaches(
        m2,
        content(m2, y),
        ty(g2, y),
        #[trigger] cell(m2, y),
    ) by {
        if y != x {
            assert(strict(m2, content(m2, y), ty(g2, y)));
        }
    }
    assert forall|y: Seq<char>, z: Seq<char>, b: usize|
        #![trigger owns(m2, g2, y, b), owns(m2, g2, z, b)]
        domain(g2).contains(y) && domain(g2).contains(z) && y != z implies !(owns(m2, g2, y, b)
            && owns(m2, g2, z, b)) by {
        if owns(m2, g2, y, b) && owns(m2, g2, z, b) {
            if y != x {
                assert(strict(m2, content(m2, y), ty(g2, y)));
                assert(owns(m2, g2, y, b) == owns(m, g, y, b));
            }
            if z != x {
                assert(strict(m2, content(m2, z), ty(g2, z)));
                assert(owns(m2, g2, z, b) == owns(m, g, z, b));
            }
            if y != x && z != x {
                assert(!(owns(m, g, y, b) && owns(m, g, z, b)));
            } else {
                let other = if y == x {
                    z
                } else {
                    y
                };
                lemma_unowned(m, g, other, a);
                assert(owns(m, g, other, b));
                if b != a {
                    assert(reaches(m2, v, t, b));
                    assert(reaches(m, v, t, b));
                }
            }
        }
    }
}

/// Ownership and declarations. The declaration of a function under a name
/// that is no variable keeps ownership.
pub proof fn lemma_declared(
    m: Machine,
    g: Gamma,
    f: Seq<char>,
    routine: Routine,
    fty: Ty,
    l: usize,
)
    requires
        owned(m, g),
        fty is Function,
        !domain(g).contains(f),
        m.stack.len() > 0,
    ensures
        owned(m.add_function(f, routine), put(g, f, Slot { value: fty, lifetime: l })),
{
    let m2 = m.add_function(f, routine);
    let bound = Slot { value: fty, lifetime: l };
    let g2 = put(g, f, bound);
    let d = Set::<usize>::empty();
    abstraction_kept_by_declaration(m, g, f, routine, fty, l);
    lemma_safe(m2, g2);
    assert(agree(m, m2, d));
    assert forall|y: Seq<char>| domain(g2).contains(y) implies domain(g).contains(y) && strict(
        m2,
        #[trigger] content(m2, y),
        ty(g2, y),
    ) && !reaches(m2, content(m2, y), ty(g2, y), cell(m2, y)) && (forall|b: usize|
        owns(m2, g2, y, b) == owns(m, g, y, b)) by {
        lemma_domain_put_function(g, f, bound, y);
        lemma_put(g, f, bound, y);
        lemma_name_kept(m, g, m2, g2, d, y);
    }
    assert forall|y: Seq<char>| domain(g2).contains(y) implies domain(g).contains(y) by {
        lemma_domain_put_function(g, f, bound, y);
    }
    assert forall|y: Seq<char>| domain(g2).contains(y) implies !reaches(
        m2,
        content(m2, y),
        ty(g2, y),
        #[trigger] cell(m2, y),
    ) by {
        assert(strict(m2, content(m2, y), ty(g2, y)));
    }
    assert forall|y: Seq<char>, b: usize|
        domain(g2).contains(y) && #[trigger] owns(m2, g2, y, b) implies owns(m, g, y, b) by {
        assert(strict(m2, content(m2, y), ty(g2, y)));
    }
    lemma_owned_kept(m, g, m2, g2);
}

/// The state with the cells `cells` in place of its own.
pub open spec fn with_cells(m: Machine, cells: Seq<(usize, Slot<Val>)>) -> Machine {
    Machine { stack: m.stack, heap: Heap { cells, next: m.heap.next } }
}

/// The drop of a sound value succeeds, and takes out of the store exactly
/// the cells of the boxes that the value owns.
pub proof fn lemma_dropped(m: Machine, v: Val, t: Ty)
    requires
        sound(m, v, t),
        distinct_keys(m.heap.cells),
    ensures
        dropped(m.heap.cells, v) is Ok,
        distinct_keys(dropped(m.heap.cells, v)->Ok_0),
        forall|b: usize|
            #[trigger] lookup(dropped(m.heap.cells, v)->Ok_0, b) == (if reaches(m, v, t, b) {
                None
            } else {
                lookup(m.heap.cells, b)
            }),
    decreases t,
{
    let cells = m.heap.cells;
    match t {
        Ty::Box(inner) => {
            let p = v->Reference_0;
            let held = m.heap.read(p.location)->Ok_0;
            lemma_find(cells, p.location);
            let i = find(cells, p.location)->0;
            let rest = cells.remove(i);
            let m2 = with_cells(m, rest);
            let d = set![p.location];
            assert(agree(m, m2, d)) by {
                assert forall|b: usize| !d.contains(b) implies #[trigger] lookup(
                    m2.heap.cells,
                    b,
                ) == lookup(m.heap.cells, b) by {
                    lemma_removed(cells, i, b);
                }
            }
            lemma_removed(cells, i, p.location);
            lemma_not_in_own_chain(m, p.location, *inner);
            lemma_agree(m, m2, d, held, *inner);
            lemma_dropped(m2, held, *inner);
            let out = dropped(rest, held)->Ok_0;
            assert(dropped(cells, v) == Ok::<Seq<(usize, Slot<Val>)>, Fault>(out));
            assert forall|b: usize| #[trigger] lookup(out, b) == (if reaches(m, v, t, b) {
                None
            } else {
                lookup(cells, b)
            }) by {
                lemma_removed(cells, i, b);
                assert(reaches(m2, held, *inner, b) == reaches(m, held, *inner, b));
            }
        },
        _ => {},
    }
}

/// The type `t` with `nt` in place of what is inside `k` boxes.
pub open spec fn filled(t: Ty, k: nat, nt: Ty) -> Ty
    decreases k,
{
    if k == 0 {
        nt
    } else {
        match t {
            Ty::Box(inner) => Ty::Box(Box::new(filled(*inner, (k - 1) as nat, nt))),
            _ => t,
        }
    }
}

/// A new value in the cell that `k` owning references lead to, from a sound
/// value of a type with `k` boxes or more, leaves the value sound at the
/// type with the type of the new value inside the boxes. This holds where
/// the state changes in that cell and in cells of the boxes of what the
/// cell held. The decision then reads cells that it read before and that
/// the decision on what the cell held did not read, and the cells that the
/// decision on the new value reads.
pub proof fn lemma_filled(
    m: Machine,
    m2: Machine,
    v: Val,
    t: Ty,
    k: nat,
    a: usize,
    d: Set<usize>,
    nv: Val,
    nt: Ty,
)
    requires
        sound(m, v, t),
        0 < k <= boxes(t),
        leads(m, v, a, k),
        m.heap.read(a) is Ok,
        agree(m, m2, d),
        forall|b: usize|
            d.contains(b) ==> b == a || #[trigger] reaches(
                m,
                m.heap.read(a)->Ok_0,
                unboxed(t, k),
                b,
            ),
        m2.heap.read(a) == Ok::<Val, Fault>(nv),
        sound(m2, nv, nt),
    ensures
        sound(m2, v, filled(t, k, nt)),
        forall|b: usize|
            reaches(m2, v, filled(t, k, nt), b) ==> (reaches(m, v, t, b) && !reaches(
                m,
                m.heap.read(a)->Ok_0,
                unboxed(t, k),
                b,
            )) || reaches(m2, nv, nt, b),
    decreases k,
{
    let p = v->Reference_0;
    let inner = *t->Box_0;
    let held = m.heap.read(p.location)->Ok_0;
    let w = m.heap.read(a)->Ok_0;
    let tail = unboxed(t, k);
    let a2 = lemma_chain(m, v, t, k);
    lemma_leads_once(m, v, a, a2, k);
    assert(t == Ty::Box(Box::new(inner)));
    assert(filled(t, k, nt) == Ty::Box(Box::new(filled(inner, (k - 1) as nat, nt))));
    if k == 1 {
        assert(p.location == a);
        assert(filled(inner, 0, nt) == nt);
        assert(unboxed(t, 1) == unboxed(inner, 0));
        lemma_not_in_own_chain(m, a, tail);
        assert forall|b: usize| reaches(m2, v, filled(t, k, nt), b) implies (reaches(m, v, t, b)
            && !reaches(m, w, tail, b)) || reaches(m2, nv, nt, b) by {
            if b != a {
                assert(reaches(m2, nv, nt, b));
            }
        }
    } else {
        if p.location == a {
            lemma_acyclic(m, v, t, a, 1, k);
        }
        if reaches(m, w, tail, p.location) {
            let n = lemma_reaches_leads(m, w, tail, p.location);
            lemma_leads_on(m, v, a, k, p.location, n);
            assert(leads(m, v, p.location, 1));
            lemma_acyclic(m, v, t, p.location, 1, k + n);
        }
        assert(!d.contains(p.location));
        assert(lookup(m2.heap.cells, p.location) == lookup(m.heap.cells, p.location));
        assert(m2.heap.read(p.location) == Ok::<Val, Fault>(held));
        assert(unboxed(t, k) == unboxed(inner, (k - 1) as nat));
        lemma_filled(m, m2, held, inner, (k - 1) as nat, a, d, nv, nt);
        let rest = filled(inner, (k - 1) as nat, nt);
        assert forall|b: usize| reaches(m2, v, filled(t, k, nt), b) implies (reaches(m, v, t, b)
            && !reaches(m, w, tail, b)) || reaches(m2, nv, nt, b) by {
            if b == p.location {
                assert(reaches(m, v, t, b));
            } else {
                assert(reaches(m2, held, rest, b));
                if !reaches(m2, nv, nt, b) {
                    assert(reaches(m, held, inner, b));
                    assert(reaches(m, v, t, b));
                }
            }
        }
    }
}

/// The emptied type is the type with an undefined type inside the boxes.
pub proof fn lemma_emptied_filled(t: Ty, k: nat)
    requires
        k <= boxes(t),
    ensures
        emptied(t, k) == filled(t, k, Ty::Undefined(Box::new(unboxed(t, k)))),
    decreases k,
{
    if k > 0 {
        lemma_emptied_filled(*t->Box_0, (k - 1) as nat);
    }
}

/// Emptying the cell that `k` owning references lead to, from a sound value
/// of a type with `k` boxes or more, leaves the value sound at the emptied
/// type. The decision then reads only cells that it read before, and none
/// that the decision on what the cell held reads.
pub proof fn lemma_emptied(m: Machine, m2: Machine, v: Val, t: Ty, k: nat, a: usize)
    requires
        sound(m, v, t),
        0 < k <= boxes(t),
        leads(m, v, a, k),
        m.heap.read(a) is Ok,
        agree(m, m2, set![a]),
        m2.heap.read(a) == Ok::<Val, Fault>(Val::Undefined),
    ensures
        sound(m2, v, emptied(t, k)),
        forall|b: usize|
            reaches(m2, v, emptied(t, k), b) ==> reaches(m, v, t, b) && !reaches(
                m,
                m.heap.read(a)->Ok_0,
                unboxed(t, k),
                b,
            ),
{
    let nt = Ty::Undefined(Box::new(unboxed(t, k)));
    lemma_emptied_filled(t, k);
    lemma_filled(m, m2, v, t, k, a, set![a], Val::Undefined, nt);
    assert forall|b: usize| reaches(m2, v, emptied(t, k), b) implies reaches(m, v, t, b)
        && !reaches(m, m.heap.read(a)->Ok_0, unboxed(t, k), b) by {
        assert(!reaches(m2, Val::Undefined, nt, b));
    }
}

/// Ownership and moves. A move out of a variable, or out of the boxes of a
/// variable, keeps ownership; the value that it gives is sound, and the
/// boxes that the value owns belong to no variable any more.
pub proof fn lemma_moved(lv: Place, g: Gamma, m: Machine, l: usize)
    requires
        owned(m, g),
        domain(g).contains(lv.name()),
        ty(g, lv.name()).can_undefine(lv),
        check(Expr::Variable(lv), g, l).1 is Ok,
        !check(Expr::Variable(lv), g, l).1->Ok_0.1.copyable(),
        eval(check(Expr::Variable(lv), g, l).0, m, l) is Ok,
    ensures
        owned(
            eval(check(Expr::Variable(lv), g, l).0, m, l)->Ok_0.0,
            check(Expr::Variable(lv), g, l).1->Ok_0.0,
        ),
        sound(
            eval(check(Expr::Variable(lv), g, l).0, m, l)->Ok_0.0,
            eval(check(Expr::Variable(lv), g, l).0, m, l)->Ok_0.1,
            check(Expr::Variable(lv), g, l).1->Ok_0.1,
        ),
        apart(
            eval(check(Expr::Variable(lv), g, l).0, m, l)->Ok_0.0,
            check(Expr::Variable(lv), g, l).1->Ok_0.0,
            eval(check(Expr::Variable(lv), g, l).0, m, l)->Ok_0.1,
            check(Expr::Variable(lv), g, l).1->Ok_0.1,
        ),
{
    let x = lv.name();
    let k = lv.depth();
    let tx = ty(g, x);
    let vx = content(m, x);
    let cx = cell(m, x);
    let (g2, t) = check(Expr::Variable(lv), g, l).1->Ok_0;
    let marked = lv.annotated(Some(false));
    let (m2, v) = eval(Expr::Variable(marked), m, l)->Ok_0;
    lemma_owned_name(m, g, x);
    lemma_typed_slot(g, lv);
    lemma_undefine(tx, lv);
    lemma_undefine_emptied(tx, lv);
    lemma_place_type_boxed(g, lv);
    lemma_loc_annotated(m, lv, Some(false));
    assert(t == unboxed(tx, k));
    let a = m.loc(lv)->Ok_0.location;
    if k > 0 {
        lemma_loc_leads(m, lv, tx);
        let a2 = lemma_chain(m, vx, tx, k);
        lemma_leads_once(m, vx, a, a2, k);
    } else {
        assert(lv is Variable);
    }
    assert(owns(m, g, x, a));
    assert(m.heap.read(a) == Ok::<Val, Fault>(v));
    assert(sound(m, v, t));
    let kept = lookup(m.heap.cells, a)->0;
    let s = Slot { value: Val::Undefined, lifetime: kept.lifetime };
    let d = set![a];
    assert(m2.heap.cells == put(m.heap.cells, a, s));
    assert(m2.stack == m.stack);
    assert(agree(m, m2, d)) by {
        assert forall|b: usize| !d.contains(b) implies #[trigger] lookup(m2.heap.cells, b)
            == lookup(m.heap.cells, b) by {
            lemma_put(m.heap.cells, a, s, b);
        }
    }
    lemma_put(m.heap.cells, a, s, a);
    assert(m2.heap.read(a) == Ok::<Val, Fault>(Val::Undefined));
    lemma_not_in_own_chain(m, a, t);
    lemma_agree(m, m2, d, v, t);
    let left = Slot { value: tx.undefine(lv), lifetime: partial_slot(g, x)->Ok_0.lifetime };
    assert(g2 == put(g, x, left));
    lemma_put(g, x, left, x);
    assert(ty(g2, x) == emptied(tx, k));
    assert(cell(m2, x) == cx);
    if k > 0 {
        assert(cx != a);
        lemma_put(m.heap.cells, a, s, cx);
        lemma_emptied(m, m2, vx, tx, k, a);
    }
    assert(sound(m2, content(m2, x), ty(g2, x)));
    assert(name_valid(m2, g2, x) == Ok::<bool, Fault>(true));
    assert forall|b: usize| owns(m2, g2, x, b) implies owns(m, g, x, b) && !reaches(
        m,
        v,
        t,
        b,
    ) by {
        if b == cx {
            if reaches(m, v, t, b) {
                assert(reaches(m, vx, tx, cx));
            }
        }
    }
    assert forall|y: Seq<char>| domain(g2).contains(y) implies domain(g).contains(y) by {
        lemma_domain_put(g, x, left, y);
    }
    assert forall|y: Seq<char>| domain(g).contains(y) implies domain(g2).contains(y) by {
        lemma_domain_put(g, x, left, y);
    }
    lemma_safe(m, g);
    assert(m2.dom() == m.dom());
    assert(domain(g2).to_set() =~= domain(g).to_set());
    assert forall|y: Seq<char>|
        domain(g2).contains(y) implies #[trigger] name_valid(m2, g2, y) == Ok::<bool, Fault>(
        true,
    ) by {
        if y != x {
            lemma_put(g, x, left, y);
            lemma_other_kept(m, g, m2, g2, d, x, y);
        }
    }
    assert forall|y: Seq<char>| domain(g2).contains(y) implies strict(
        m2,
        #[trigger] content(m2, y),
        ty(g2, y),
    ) by {
        if y != x {
            lemma_put(g, x, left, y);
            lemma_other_kept(m, g, m2, g2, d, x, y);
        }
    }
    assert forall|y: Seq<char>, b: usize|
        domain(g2).contains(y) && #[trigger] owns(m2, g2, y, b) implies owns(m, g, y, b) by {
        if y != x {
            lemma_put(g, x, left, y);
            lemma_other_kept(m, g, m2, g2, d, x, y);
        }
    }
    assert forall|y: Seq<char>| domain(g2).contains(y) implies !reaches(
        m2,
        content(m2, y),
        ty(g2, y),
        #[trigger] cell(m2, y),
    ) by {
        if y != x {
            lemma_put(g, x, left, y);
            lemma_other_kept(m, g, m2, g2, d, x, y);
        } else {
            if reaches(m2, content(m2, x), ty(g2, x), cx) {
                assert(owns(m2, g2, x, cx));
            }
        }
    }
    lemma_write_fresh(m, marked, Val::Undefined);
    lemma_put_distinct(m.heap.cells, a, s);
    lemma_owned_kept(m, g, m2, g2);
    assert forall|y: Seq<char>, b: usize|
        #![trigger owns(m2, g2, y, b)]
        domain(g2).contains(y) && reaches(m2, v, t, b) implies !owns(m2, g2, y, b) by {
        assert(reaches(m, v, t, b));
        assert(owns(m, g, x, b));
        if y != x {
            lemma_put(g, x, left, y);
            lemma_other_kept(m, g, m2, g2, d, x, y);
            assert(owns(m2, g2, y, b) == owns(m, g, y, b));
            assert(!(owns(m, g, x, b) && owns(m, g, y, b)));
        }
    }
}

/// A write to a place inside the boxes of a variable leaves the environment
/// as it is and gives the type of the variable with the written type inside
/// the boxes.
pub proof fn lemma_updated_boxed(g: Gamma, lv: Place, cur: Ty, t: Ty, fuel: nat)
    requires
        cur.can_undefine(lv),
    ensures
        updated(g, lv, cur, t, fuel) == Ok::<(Gamma, Ty), Fault>(
            (g, filled(cur, lv.depth(), t)),
        ),
    decreases lv,
{
    match lv {
        Place::Variable { .. } => {},
        Place::Deref { var } => {
            lemma_updated_boxed(g, *var, *cur->Box_0, t, fuel);
        },
    }
}

/// Whether the cell at `b` is the cell of a place that `lv` dereferences.
pub open spec fn on_path(m: Machine, lv: Place, b: usize) -> bool
    decreases lv,
{
    match lv {
        Place::Variable { .. } => false,
        Place::Deref { var } => (m.loc(*var) is Ok && m.loc(*var)->Ok_0.location == b) || on_path(
            m,
            *var,
            b,
        ),
    }
}

/// The cell of a place is the same in a state that agrees on the cells of
/// the places that the place dereferences.
pub proof fn lemma_loc_agree(m: Machine, m2: Machine, d: Set<usize>, lv: Place)
    requires
        agree(m, m2, d),
        m2.stack == m.stack,
        m.loc(lv) is Ok,
        forall|b: usize| d.contains(b) ==> !#[trigger] on_path(m, lv, b),
    ensures
        m2.loc(lv) == m.loc(lv),
    decreases lv,
{
    match lv {
        Place::Variable { .. } => {},
        Place::Deref { var } => {
            let c = m.loc(*var)->Ok_0.location;
            assert(on_path(m, lv, c));
            assert(!d.contains(c));
            assert(lookup(m2.heap.cells, c) == lookup(m.heap.cells, c));
            assert forall|b: usize| d.contains(b) implies !#[trigger] on_path(m, *var, b) by {
                assert(!on_path(m, lv, b));
            }
            lemma_loc_agree(m, m2, d, *var);
        },
    }
}

/// The cells of the places that a place dereferences are not among the
/// boxes of what the place holds.
pub proof fn lemma_path_apart(
    m: Machine,
    x: Seq<char>,
    t: Ty,
    lv: Place,
    k: nat,
    a: usize,
    b: usize,
)
    requires
        m.locate(x) is Ok,
        m.heap.read(cell(m, x)) is Ok,
        sound(m, content(m, x), t),
        !reaches(m, content(m, x), t, cell(m, x)),
        lv.name() == x,
        lv.depth() <= k,
        0 < k <= boxes(t),
        leads(m, content(m, x), a, k),
        m.heap.read(a) is Ok,
        on_path(m, lv, b),
    ensures
        !reaches(m, m.heap.read(a)->Ok_0, unboxed(t, k), b),
    decreases lv,
{
    let vx = content(m, x);
    let w = m.heap.read(a)->Ok_0;
    let tail = unboxed(t, k);
    let a2 = lemma_chain(m, vx, t, k);
    lemma_leads_once(m, vx, a, a2, k);
    match lv {
        Place::Variable { .. } => {},
        Place::Deref { var } => {
            if m.loc(*var) is Ok && m.loc(*var)->Ok_0.location == b {
                if var.depth() == 0 {
                    assert(*var is Variable);
                    if reaches(m, w, tail, b) {
                        assert(reaches(m, vx, t, b));
                    }
                } else {
                    lemma_loc_leads(m, *var, t);
                    if reaches(m, w, tail, b) {
                        let n = lemma_reaches_leads(m, w, tail, b);
                        lemma_leads_on(m, vx, a, k, b, n);
                        lemma_acyclic(m, vx, t, b, var.depth(), k + n);
                    }
                }
            } else {
                lemma_path_apart(m, x, t, *var, k, a, b);
            }
        },
    }
}

/// Ownership and assignments. The assignment of a sound value whose boxes
/// belong to no variable, to a variable or to a place inside its boxes,
/// succeeds and keeps ownership: the boxes of what the place held are
/// dropped, and those of the new value now belong to the variable.
pub proof fn lemma_assigned(m: Machine, g: Gamma, lv: Place, v: Val, t2: Ty)
    requires
        owned(m, g),
        sound(m, v, t2),
        apart(m, g, v, t2),
        domain(g).contains(lv.name()),
        ty(g, lv.name()).can_undefine(lv),
        written(g, lv, t2, g.len()) is Ok,
    ensures
        m.read(lv) is Ok,
        m.drop(m.read(lv)->Ok_0) is Ok,
        m.drop(m.read(lv)->Ok_0)->Ok_0.write(lv, v) is Ok,
        owned(
            m.drop(m.read(lv)->Ok_0)->Ok_0.write(lv, v)->Ok_0,
            written(g, lv, t2, g.len())->Ok_0,
        ),
{
    let x = lv.name();
    let k = lv.depth();
    let tx = ty(g, x);
    let vx = content(m, x);
    let cx = cell(m, x);
    let tail = unboxed(tx, k);
    lemma_owned_name(m, g, x);
    lemma_undefine(tx, lv);
    lemma_updated_boxed(g, lv, tx, t2, g.len());
    let g3 = written(g, lv, t2, g.len())->Ok_0;
    let nt = filled(tx, k, t2);
    let bound = Slot { value: nt, lifetime: partial_slot(g, x)->Ok_0.lifetime };
    assert(slot_of(g, x) is Ok);
    assert(g3 == put(g, x, bound));
    if k > 0 {
        lemma_loc_leads(m, lv, tx);
        let a2 = lemma_chain(m, vx, tx, k);
        lemma_leads_once(m, vx, m.loc(lv)->Ok_0.location, a2, k);
    } else {
        assert(lv is Variable);
    }
    let a = m.loc(lv)->Ok_0.location;
    let old = m.heap.read(a)->Ok_0;
    assert(owns(m, g, x, a));
    assert(sound(m, old, tail));
    lemma_dropped(m, old, tail);
    lemma_dropped_fresh(m.heap.cells, old, m.heap.next);
    let m3 = m.drop(old)->Ok_0;
    let d0 = Set::<usize>::new(|b: usize| reaches(m, old, tail, b));
    assert(agree(m, m3, d0)) by {
        assert forall|b: usize| !d0.contains(b) implies #[trigger] lookup(m3.heap.cells, b)
            == lookup(m.heap.cells, b) by {}
    }
    lemma_not_in_own_chain(m, a, tail);
    assert forall|b: usize| d0.contains(b) implies !#[trigger] on_path(m, lv, b) by {
        if on_path(m, lv, b) {
            if k > 0 {
                lemma_path_apart(m, x, tx, lv, k, a, b);
            }
        }
    }
    lemma_loc_agree(m, m3, d0, lv);
    assert(lookup(m3.heap.cells, a) == lookup(m.heap.cells, a));
    let kept = lookup(m.heap.cells, a)->0;
    let s = Slot { value: v, lifetime: kept.lifetime };
    let m4 = m3.write(lv, v)->Ok_0;
    assert(m4.heap.cells == put(m3.heap.cells, a, s));
    assert(m4.stack == m.stack);
    let d = d0.insert(a);
    lemma_put(m3.heap.cells, a, s, a);
    assert(agree(m, m4, d)) by {
        assert forall|b: usize| !d.contains(b) implies #[trigger] lookup(m4.heap.cells, b)
            == lookup(m.heap.cells, b) by {
            lemma_put(m3.heap.cells, a, s, b);
            assert(!d0.contains(b));
            assert(lookup(m3.heap.cells, b) == lookup(m.heap.cells, b));
        }
    }
    assert forall|b: usize| d.contains(b) implies #[trigger] owns(m, g, x, b) by {
        if b != a {
            assert(reaches(m, old, tail, b));
            if k > 0 {
                let a2 = lemma_chain(m, vx, tx, k);
                lemma_leads_once(m, vx, a, a2, k);
            }
        }
    }
    assert forall|b: usize| d.contains(b) implies !#[trigger] reaches(m, v, t2, b) by {
        assert(owns(m, g, x, b));
    }
    lemma_agree(m, m4, d, v, t2);
    lemma_put(g, x, bound, x);
    assert(ty(g3, x) == nt);
    assert(cell(m4, x) == cx);
    if k > 0 {
        assert(cx != a);
        assert(!d0.contains(cx)) by {
            if reaches(m, old, tail, cx) {
                let a2 = lemma_chain(m, vx, tx, k);
                lemma_leads_once(m, vx, a, a2, k);
            }
        }
        assert(lookup(m4.heap.cells, cx) == lookup(m.heap.cells, cx));
        lemma_filled(m, m4, vx, tx, k, a, d, v, t2);
    }
    assert(sound(m4, content(m4, x), nt));
    assert(!(nt is Function));
    assert forall|b: usize| owns(m4, g3, x, b) implies owns(m, g, x, b) || reaches(m, v, t2, b) by {
        if b != cx {
            if k == 0 {
                assert(reaches(m4, v, t2, b));
            } else {
                if reaches(m4, v, t2, b) {
                    assert(reaches(m, v, t2, b));
                }
            }
        }
    }
    assert forall|y: Seq<char>| domain(g3).contains(y) implies domain(g).contains(y) by {
        lemma_domain_put(g, x, bound, y);
    }
    assert forall|y: Seq<char>| domain(g).contains(y) implies domain(g3).contains(y) by {
        lemma_domain_put(g, x, bound, y);
    }
    lemma_safe(m, g);
    lemma_safe(m4, g3);
    assert(m4.dom() == m.dom());
    assert(domain(g3).to_set() =~= domain(g).to_set());
    assert forall|y: Seq<char>|
        domain(g3).contains(y) implies #[trigger] name_valid(m4, g3, y) == Ok::<bool, Fault>(
        true,
    ) by {
        if y != x {
            lemma_put(g, x, bound, y);
            lemma_other_kept(m, g, m4, g3, d, x, y);
        }
    }
    assert forall|y: Seq<char>| domain(g3).contains(y) implies strict(
        m4,
        #[trigger] content(m4, y),
        ty(g3, y),
    ) by {
        if y != x {
            lemma_put(g, x, bound, y);
            lemma_other_kept(m, g, m4, g3, d, x, y);
        }
    }
    assert forall|y: Seq<char>| domain(g3).contains(y) implies !reaches(
        m4,
        content(m4, y),
        ty(g3, y),
        #[trigger] cell(m4, y),
    ) by {
        if y != x {
            lemma_put(g, x, bound, y);
            lemma_other_kept(m, g, m4, g3, d, x, y);
        } else {
            if reaches(m4, content(m4, x), nt, cx) {
                assert(owns(m4, g3, x, cx));
                assert(owns(m, g, x, cx));
                assert(!reaches(m, v, t2, cx));
            }
        }
    }
    assert forall|y: Seq<char>, z: Seq<char>, b: usize|
        #![trigger owns(m4, g3, y, b), owns(m4, g3, z, b)]
        domain(g3).contains(y) && domain(g3).contains(z) && y != z implies !(owns(m4, g3, y, b)
            && owns(m4, g3, z, b)) by {
        if owns(m4, g3, y, b) && owns(m4, g3, z, b) {
            if y != x {
                lemma_put(g, x, bound, y);
                lemma_other_kept(m, g, m4, g3, d, x, y);
                assert(owns(m4, g3, y, b) == owns(m, g, y, b));
            }
            if z != x {
                lemma_put(g, x, bound, z);
                lemma_other_kept(m, g, m4, g3, d, x, z);
                assert(owns(m4, g3, z, b) == owns(m, g, z, b));
            }
            if y != x && z != x {
                assert(!(owns(m, g, y, b) && owns(m, g, z, b)));
            } else {
                let other = if y == x {
                    z
                } else {
                    y
                };
                assert(owns(m, g, other, b));
                assert(owns(m, g, x, b) || reaches(m, v, t2, b));
                if owns(m, g, x, b) {
                    assert(!(owns(m, g, x, b) && owns(m, g, other, b)));
                }
            }
        }
    }
    lemma_write_fresh(m3, lv, v);
    lemma_put_distinct(m3.heap.cells, a, s);
}

/// Ownership and copies. A copying read of a variable, or of what the boxes
/// of a variable hold, gives a sound value that owns no box.
pub proof fn lemma_copied(lv: Place, g: Gamma, m: Machine, l: usize)
    requires
        owned(m, g),
        domain(g).contains(lv.name()),
        ty(g, lv.name()).can_undefine(lv),
        check(Expr::Variable(lv), g, l).1 is Ok,
        check(Expr::Variable(lv), g, l).1->Ok_0.1.copyable(),
        eval(check(Expr::Variable(lv), g, l).0, m, l) is Ok,
    ensures
        check(Expr::Variable(lv), g, l).1->Ok_0.0 == g,
        eval(check(Expr::Variable(lv), g, l).0, m, l)->Ok_0.0 == m,
        sound(
            m,
            eval(check(Expr::Variable(lv), g, l).0, m, l)->Ok_0.1,
            check(Expr::Variable(lv), g, l).1->Ok_0.1,
        ),
        forall|b: usize|
            !reaches(
                m,
                eval(check(Expr::Variable(lv), g, l).0, m, l)->Ok_0.1,
                check(Expr::Variable(lv), g, l).1->Ok_0.1,
                b,
            ),
{
    let x = lv.name();
    let k = lv.depth();
    let tx = ty(g, x);
    let vx = content(m, x);
    lemma_owned_name(m, g, x);
    lemma_typed_slot(g, lv);
    lemma_undefine(tx, lv);
    lemma_place_type_boxed(g, lv);
    lemma_loc_annotated(m, lv, Some(true));
    if k > 0 {
        lemma_loc_leads(m, lv, tx);
        let a2 = lemma_chain(m, vx, tx, k);
        lemma_leads_once(m, vx, m.loc(lv)->Ok_0.location, a2, k);
    } else {
        assert(lv is Variable);
    }
}

/// The terms of which ownership is shown: those that call no function,
/// reach every place through the boxes of a variable, and declare
/// functions under names that are no variables.
pub open spec fn tame(t: Expr, g: Gamma, l: usize) -> bool
    decreases t,
{
    match t {
        Expr::Variable(lv) => domain(g).contains(lv.name()) && ty(g, lv.name()).can_undefine(lv),
        Expr::Box { term } => tame(*term, g, l),
        Expr::Let { term, .. } => tame(*term, g, l),
        Expr::Assign { variable, term } => tame(*term, g, l) && match check(*term, g, l).1 {
            Ok((g2, _)) => domain(g2).contains(variable.name()) && ty(
                g2,
                variable.name(),
            ).can_undefine(variable),
            Err(_) => true,
        },
        Expr::FunctionDeclaration { name, .. } => !domain(g).contains(name),
        Expr::FunctionCall { .. } => false,
        _ => true,
    }
}

/// Ownership is kept. From a state and an environment that satisfy the
/// invariant of ownership, a tame term that checks and evaluates leaves a
/// state and an environment that satisfy it, and gives a sound value of
/// the type that the check found, whose boxes belong to no variable.
pub proof fn ownership_is_kept(t: Expr, g: Gamma, m: Machine, l: usize)
    requires
        owned(m, g),
        tame(t, g, l),
        check(t, g, l).1 is Ok,
        eval(check(t, g, l).0, m, l) is Ok,
    ensures
        owned(eval(check(t, g, l).0, m, l)->Ok_0.0, check(t, g, l).1->Ok_0.0),
        sound(
            eval(check(t, g, l).0, m, l)->Ok_0.0,
            eval(check(t, g, l).0, m, l)->Ok_0.1,
            check(t, g, l).1->Ok_0.1,
        ),
        apart(
            eval(check(t, g, l).0, m, l)->Ok_0.0,
            check(t, g, l).1->Ok_0.0,
            eval(check(t, g, l).0, m, l)->Ok_0.1,
            check(t, g, l).1->Ok_0.1,
        ),
    decreases t,
{
    match t {
        Expr::Value(_) => {},
        Expr::Ref { var, .. } => {
            lemma_loc_locates(m, var);
            lemma_erased_name(var);
        },
        Expr::Variable(lv) => {
            if check(t, g, l).1->Ok_0.1.copyable() {
                lemma_copied(lv, g, m, l);
            } else {
                lemma_moved(lv, g, m, l);
            }
        },
        Expr::Box { term } => {
            ownership_is_kept(*term, g, m, l);
            let (g2, ty) = check(*term, g, l).1->Ok_0;
            let (m2, v) = eval(check(*term, g, l).0, m, l)->Ok_0;
            lemma_boxed(m2, g2, v, ty, 0);
        },
        Expr::Let { variable, term, .. } => {
            ownership_is_kept(*term, g, m, l);
            let (g2, ty) = check(*term, g, l).1->Ok_0;
            let (m2, v) = eval(check(*term, g, l).0, m, l)->Ok_0;
            lemma_defined(m2, g2, variable.name(), v, ty, l);
        },
        Expr::Assign { variable, term } => {
            ownership_is_kept(*term, g, m, l);
            let (g2, ty) = check(*term, g, l).1->Ok_0;
            let (m2, v) = eval(check(*term, g, l).0, m, l)->Ok_0;
            lemma_assigned(m2, g2, variable, v, ty);
        },
        Expr::FunctionDeclaration { name, args, ty, .. } => {
            lemma_declared(
                m,
                g,
                name,
                crate::state::Routine {
                    args,
                    body: check(t, g, l).0->FunctionDeclaration_body,
                },
                function_type(args, ty),
                l,
            );
        },
        Expr::FunctionCall { .. } => {},
    }
}

/// Whether every place that the term borrows is a variable or inside the
/// boxes of one, outside the bodies of the functions that it declares.
pub open spec fn borrows_tamely(t: Expr, g: Gamma, l: usize) -> bool
    decreases t,
{
    match t {
        Expr::Ref { var, .. } => domain(g).contains(var.name()) && ty(g, var.name()).can_undefine(
            var,
        ),
        Expr::Box { term } => borrows_tamely(*term, g, l),
        Expr::Let { term, .. } => borrows_tamely(*term, g, l),
        Expr::Assign { term, .. } => borrows_tamely(*term, g, l),
        _ => true,
    }
}

/// Progress. From a state with a frame that satisfies the invariant of
/// ownership, a tame term that checks, and that borrows tamely, evaluates,
/// unless the store runs out of addresses.
pub proof fn tame_terms_evaluate(t: Expr, g: Gamma, m: Machine, l: usize)
    requires
        owned(m, g),
        m.stack.len() > 0,
        tame(t, g, l),
        borrows_tamely(t, g, l),
        check(t, g, l).1 is Ok,
    ensures
        eval(check(t, g, l).0, m, l) is Ok || eval(check(t, g, l).0, m, l) == Err::<
            (Machine, Val),
            Fault,
        >(Fault::StoreFull),
    decreases t,
{
    match t {
        Expr::Variable(lv) => {
            let x = lv.name();
            let c = check(t, g, l).1->Ok_0.1.copyable();
            lemma_owned_name(m, g, x);
            lemma_undefine(ty(g, x), lv);
            lemma_loc_annotated(m, lv, Some(c));
            if lv.depth() > 0 {
                lemma_loc_leads(m, lv, ty(g, x));
                let a = lemma_chain(m, content(m, x), ty(g, x), lv.depth());
                lemma_leads_once(m, content(m, x), a, m.loc(lv)->Ok_0.location, lv.depth());
            } else {
                assert(lv is Variable);
            }
        },
        Expr::Ref { var, .. } => {
            let x = var.name();
            lemma_owned_name(m, g, x);
            lemma_undefine(ty(g, x), var);
            if var.depth() > 0 {
                lemma_loc_leads(m, var, ty(g, x));
            } else {
                assert(var is Variable);
            }
        },
        Expr::Box { term } => {
            tame_terms_evaluate(*term, g, m, l);
        },
        Expr::Let { term, .. } => {
            tame_terms_evaluate(*term, g, m, l);
            if eval(check(*term, g, l).0, m, l) is Ok {
                lemma_eval_depth(check(*term, g, l).0, m, l);
            }
        },
        Expr::Assign { variable, term } => {
            tame_terms_evaluate(*term, g, m, l);
            if eval(check(*term, g, l).0, m, l) is Ok {
                ownership_is_kept(*term, g, m, l);
                let (g2, ty2) = check(*term, g, l).1->Ok_0;
                let (m2, v) = eval(check(*term, g, l).0, m, l)->Ok_0;
                lemma_assigned(m2, g2, variable, v, ty2);
            }
        },
        _ => {},
    }
}

/// The state that a program starts from satisfies the invariant of
/// ownership.
pub proof fn initial_is_owned()
    ensures
        owned(initial().state, initial().env),
{
    let m = initial().state;
    let g = initial().env;
    assert(domain(g) =~= Seq::<Seq<char>>::empty());
    reveal_with_fuel(crate::state::frame_names, 2);
    assert(m.stack.drop_last() =~= Seq::empty());
    assert(crate::table::keys(m.stack.last().locations) =~= Seq::<Seq<char>>::empty());
    assert(m.dom() =~= Seq::<Seq<char>>::empty());
}

/// Safe abstraction and preservation. From a state and an environment that
/// satisfy the invariant of ownership, a tame term that checks and
/// evaluates leaves an environment that describes the state, and gives a
/// value of the type that the check found.
pub proof fn tame_terms_are_sound(t: Expr, g: Gamma, m: Machine, l: usize)
    requires
        owned(m, g),
        tame(t, g, l),
        check(t, g, l).1 is Ok,
        eval(check(t, g, l).0, m, l) is Ok,
    ensures
        abstraction_safe(eval(check(t, g, l).0, m, l)->Ok_0.0, check(t, g, l).1->Ok_0.0) == Ok::<
            bool,
            Fault,
        >(true),
        value_valid(
            eval(check(t, g, l).0, m, l)->Ok_0.0,
            eval(check(t, g, l).0, m, l)->Ok_0.1,
            check(t, g, l).1->Ok_0.1,
        ) == Ok::<bool, Fault>(true),
{
    ownership_is_kept(t, g, m, l);
}

/// Whether each term of the program is tame in the environment that the
/// terms before it leave.
pub open spec fn tame_program(ts: Seq<Expr>, g: Gamma, l: usize) -> bool {
    forall|i: int|
        0 <= i < ts.len() ==> tame(#[trigger] ts[i], check_seq(ts.take(i), g, l).1->Ok_0.0, l)
}

/// The steps of a run of a tame program keep ownership, and follow the
/// environments of the check of the program.
pub proof fn lemma_steps_owned(program: Seq<Expr>, x: Session, i: int)
    requires
        owned(x.state, x.env),
        check_seq(program, x.env, 0).1 is Ok,
        tame_program(program, x.env, 0),
        0 <= i <= program.len(),
    ensures
        owned(
            steps(check_seq(program, x.env, 0).0.take(i), x).0.state,
            steps(check_seq(program, x.env, 0).0.take(i), x).0.env,
        ),
        steps(check_seq(program, x.env, 0).0.take(i), x).1 is Ok ==> steps(
            check_seq(program, x.env, 0).0.take(i),
            x,
        ).0.env == check_seq(program.take(i), x.env, 0).1->Ok_0.0,
    decreases i,
{
    let annotated = check_seq(program, x.env, 0).0;
    lemma_check_seq_len(program, x.env, 0);
    if i > 0 {
        lemma_steps_owned(program, x, i - 1);
        assert(annotated.take(i).drop_last() =~= annotated.take(i - 1));
        assert(program.take(i).drop_last() =~= program.take(i - 1));
        lemma_check_seq_take(program, x.env, 0, i);
        lemma_check_seq_take(program, x.env, 0, i - 1);
        let (x1, r1) = steps(annotated.take(i - 1), x);
        if r1 is Ok {
            let g1 = check_seq(program.take(i - 1), x.env, 0).1->Ok_0.0;
            let t = program[i - 1];
            assert(program.take(i).last() == t);
            let done = check_seq(program.take(i - 1), x.env, 0).0;
            let p = check(t, g1, 0).0;
            assert(check_seq(program.take(i), x.env, 0).0 == done.push(p));
            assert(annotated.take(i).last() == annotated[i - 1]);
            assert(done.push(p).last() == p);
            assert(annotated[i - 1] == p);
            lemma_check_again(t, g1, 0);
            if step(x1, p) is Ok {
                ownership_is_kept(t, g1, x1.state, 0);
            }
        }
    } else {
        assert(annotated.take(0) =~= Seq::empty());
        assert(program.take(0) =~= Seq::empty());
    }
}

/// Runs of tame programs. A run of a tame program from the initial state
/// keeps the invariant of ownership: whether it has failed or not, the
/// environment describes the state that it has reached.
pub proof fn runs_of_tame_programs_are_sound(program: Seq<Expr>)
    requires
        tame_program(program, initial().env, 0),
    ensures
        owned(ran(program, initial()).0.state, ran(program, initial()).0.env),
        abstraction_safe(ran(program, initial()).0.state, ran(program, initial()).0.env) == Ok::<
            bool,
            Fault,
        >(true),
{
    initial_is_owned();
    let x = initial();
    if check_seq(program, x.env, 0).1 is Ok {
        lemma_check_seq_len(program, x.env, 0);
        lemma_steps_owned(program, x, program.len() as int);
        let annotated = check_seq(program, x.env, 0).0;
        assert(annotated.take(program.len() as int) =~= annotated);
    }
}

} // verus!
