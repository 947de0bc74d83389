//! Borrow exclusivity: a variable that some binding borrows mutably is
//! borrowed by no other binding, and every check that succeeds keeps it so.
use crate::ast::{Expr, Place};
use crate::interpreter::{initial, step, steps, Session};
use crate::table::{
    distinct_keys, find, lemma_find, lemma_put, lemma_put_distinct, lookup, put,
};
use crate::typecheck::{check, check_args, check_borrow, check_seq, function_type};
use crate::typing::{
    borrowed, moved, place_type, slot_of, updated, written, Gamma, Slot, Ty,
};
use vstd::prelude::*;

verus! {

/// The type of a borrow of the variable `x`.
pub open spec fn borrow(x: Seq<char>, mutable: bool) -> Ty {
    Ty::Reference { var: Place::variable(x), mutable }
}

/// The variable that a value of the type borrows, and whether it borrows it
/// mutably: the reference inside any number of boxes.
pub open spec fn borrowing(ty: Ty) -> Option<(Seq<char>, bool)>
    decreases ty,
{
    match ty {
        Ty::Box(t) => borrowing(*t),
        Ty::Reference { var: Place::Variable { name, copyable: None }, mutable } => Some(
            (name, mutable),
        ),
        _ => None,
    }
}

/// Whether two borrows may stand in one environment: they are of different
/// variables, or both are shared.
pub open spec fn compatible(a: Option<(Seq<char>, bool)>, b: Option<(Seq<char>, bool)>) -> bool {
    match (a, b) {
        (Some((x, m1)), Some((y, m2))) => x != y || (!m1 && !m2),
        _ => true,
    }
}

/// Borrow exclusivity: where the type of one binding contains a mutable
/// borrow of a variable, the type of no other binding contains a borrow of
/// that variable.
pub open spec fn borrows_exclusive(g: Gamma) -> bool {
    forall|i: int, j: int, x: Seq<char>, m: bool|
        #![trigger g[i].1.value.contains(borrow(x, true)), g[j].1.value.contains(borrow(x, m))]
        0 <= i < g.len() && 0 <= j < g.len() && i != j && g[i].1.value.contains(borrow(x, true))
            ==> !g[j].1.value.contains(borrow(x, m))
}

/// Exclusivity, said of what each binding borrows.
pub open spec fn exclusive(g: Gamma) -> bool {
    forall|i: int, j: int|
        0 <= i < g.len() && 0 <= j < g.len() && i != j ==> compatible(
            borrowing((#[trigger] g[i]).1.value),
            borrowing((#[trigger] g[j]).1.value),
        )
}

/// Whether a value of the type may be bound in the environment: what it
/// borrows is compatible with what every binding borrows.
pub open spec fn admits(g: Gamma, ty: Ty) -> bool {
    forall|j: int|
        0 <= j < g.len() ==> compatible(borrowing(ty), borrowing((#[trigger] g[j]).1.value))
}

/// Whether the functions that the type mentions return nothing that
/// borrows.
pub open spec fn plain(ty: Ty) -> bool
    decreases ty,
{
    match ty {
        Ty::Box(t) => plain(*t),
        Ty::Undefined(t) => plain(*t),
        Ty::Function { ret: Some(r), .. } => borrowing(*r) is None && plain(*r),
        _ => true,
    }
}

/// Whether every binding is plain.
pub open spec fn env_plain(g: Gamma) -> bool {
    forall|j: int| 0 <= j < g.len() ==> plain((#[trigger] g[j]).1.value)
}

/// Whether the functions that the term declares, outside the bodies of
/// other functions, return nothing that borrows.
pub open spec fn declares_plainly(t: Expr) -> bool
    decreases t,
{
    match t {
        Expr::Box { term } => declares_plainly(*term),
        Expr::Let { term, .. } => declares_plainly(*term),
        Expr::Assign { term, .. } => declares_plainly(*term),
        Expr::FunctionCall { params, .. } => forall|i: int|
            0 <= i < params.len() ==> declares_plainly(#[trigger] params[i]),
        Expr::FunctionDeclaration { ty, .. } => match ty {
            Some(r) => borrowing(r) is None && plain(r),
            None => true,
        },
        _ => true,
    }
}

/// A type contains the borrow of `x` exactly when that is what it borrows.
pub proof fn lemma_contains_borrow(ty: Ty, x: Seq<char>, m: bool)
    ensures
        ty.contains(borrow(x, m)) <==> borrowing(ty) == Some((x, m)),
    decreases ty,
{
    match ty {
        Ty::Box(t) => {
            lemma_contains_borrow(*t, x, m);
        },
        _ => {},
    }
}

/// The two ways of saying exclusivity agree.
pub proof fn lemma_exclusive_agree(g: Gamma)
    ensures
        exclusive(g) <==> borrows_exclusive(g),
{
    if exclusive(g) {
        assert forall|i: int, j: int, x: Seq<char>, m: bool|
            #![trigger g[i].1.value.contains(borrow(x, true)), g[j].1.value.contains(borrow(x, m))]
            0 <= i < g.len() && 0 <= j < g.len() && i != j && g[i].1.value.contains(
                borrow(x, true),
            ) implies !g[j].1.value.contains(borrow(x, m)) by {
            lemma_contains_borrow(g[i].1.value, x, true);
            lemma_contains_borrow(g[j].1.value, x, m);
            assert(compatible(borrowing(g[i].1.value), borrowing(g[j].1.value)));
        }
    }
    if borrows_exclusive(g) {
        assert forall|i: int, j: int|
            0 <= i < g.len() && 0 <= j < g.len() && i != j implies compatible(
            borrowing((#[trigger] g[i]).1.value),
            borrowing((#[trigger] g[j]).1.value),
        ) by {
            match (borrowing(g[i].1.value), borrowing(g[j].1.value)) {
                (Some((x, m1)), Some((y, m2))) => {
                    lemma_contains_borrow(g[i].1.value, x, m1);
                    lemma_contains_borrow(g[j].1.value, y, m2);
                    if x == y && m1 {
                        assert(g[i].1.value.contains(borrow(x, true)));
                        assert(!g[j].1.value.contains(borrow(x, m2)));
                    }
                    if x == y && m2 {
                        assert(g[j].1.value.contains(borrow(x, true)));
                        assert(!g[i].1.value.contains(borrow(x, m1)));
                    }
                },
                _ => {},
            }
        }
    }
}

/// Whether some binding borrows `x`, in terms of what the bindings borrow.
pub proof fn lemma_borrowed(g: Gamma, x: Seq<char>, m: bool)
    ensures
        borrowed(g, x, m) <==> exists|i: int|
            0 <= i < g.len() && borrowing((#[trigger] g[i]).1.value) == Some((x, m)),
{
    if borrowed(g, x, m) {
        let i = choose|i: int|
            0 <= i < g.len() && (#[trigger] g[i]).1.value.contains(
                Ty::Reference { var: Place::variable(x), mutable: m },
            );
        lemma_contains_borrow(g[i].1.value, x, m);
    }
    if exists|i: int| 0 <= i < g.len() && borrowing((#[trigger] g[i]).1.value) == Some((x, m)) {
        let i = choose|i: int|
            0 <= i < g.len() && borrowing((#[trigger] g[i]).1.value) == Some((x, m));
        lemma_contains_borrow(g[i].1.value, x, m);
        assert(g[i].1.value.contains(Ty::Reference { var: Place::variable(x), mutable: m }));
    }
}

/// Binding a value that the environment admits keeps the environment
/// exclusive, and plain if the value is.
pub proof fn lemma_put_exclusive(g: Gamma, k: Seq<char>, v: Ty, lifetime: usize)
    requires
        exclusive(g),
        admits(g, v),
    ensures
        exclusive(put(g, k, Slot { value: v, lifetime })),
        env_plain(g) && plain(v) ==> env_plain(put(g, k, Slot { value: v, lifetime })),
{
    lemma_find(g, k);
    let g2 = put(g, k, Slot { value: v, lifetime });
    let at = match find(g, k) {
        Some(i) => i,
        None => g.len() as int,
    };
    assert forall|i: int, j: int|
        0 <= i < g2.len() && 0 <= j < g2.len() && i != j implies compatible(
        borrowing((#[trigger] g2[i]).1.value),
        borrowing((#[trigger] g2[j]).1.value),
    ) by {
        if i == at {
            assert(g2[j] == g[j]);
            assert(compatible(borrowing(v), borrowing(g[j].1.value)));
        } else if j == at {
            assert(g2[i] == g[i]);
            assert(compatible(borrowing(v), borrowing(g[i].1.value)));
        } else {
            assert(g2[i] == g[i]);
            assert(g2[j] == g[j]);
        }
    }
    if env_plain(g) && plain(v) {
        assert forall|j: int| 0 <= j < g2.len() implies plain((#[trigger] g2[j]).1.value) by {
            if j != at {
                assert(g2[j] == g[j]);
            }
        }
    }
}

/// Binding a name to what it is bound to changes nothing.
pub proof fn lemma_put_same(g: Gamma, k: Seq<char>)
    requires
        lookup(g, k) is Some,
    ensures
        put(g, k, lookup(g, k)->0) == g,
{
    lemma_find(g, k);
    assert(put(g, k, lookup(g, k)->0) =~= g);
}

/// Of two bindings of one name the second stands.
pub proof fn lemma_put_twice(g: Gamma, k: Seq<char>, a: Slot<Ty>, b: Slot<Ty>)
    ensures
        put(put(g, k, a), k, b) == put(g, k, b),
{
    lemma_find(g, k);
    lemma_put(g, k, a, k);
    lemma_find(put(g, k, a), k);
    assert(put(put(g, k, a), k, b) =~= put(g, k, b));
}

/// The number of boxes around a type.
pub open spec fn boxes(ty: Ty) -> nat
    decreases ty,
{
    match ty {
        Ty::Box(t) => 1 + boxes(*t),
        _ => 0,
    }
}

/// The type inside `k` boxes.
pub open spec fn unboxed(ty: Ty, k: nat) -> Ty
    decreases k,
{
    if k == 0 {
        ty
    } else {
        match ty {
            Ty::Box(t) => unboxed(*t, (k - 1) as nat),
            _ => ty,
        }
    }
}

/// What is inside `k + 1` boxes stands in a box inside `k` boxes.
pub proof fn lemma_unboxed_step(ty: Ty, k: nat)
    requires
        boxes(ty) > k,
    ensures
        unboxed(ty, k) == Ty::Box(Box::new(unboxed(ty, k + 1))),
        boxes(unboxed(ty, k)) == boxes(ty) - k,
    decreases k,
{
    if k > 0 {
        match ty {
            Ty::Box(t) => {
                lemma_unboxed_step(*t, (k - 1) as nat);
                assert(unboxed(ty, k + 1) == unboxed(*t, k));
            },
            _ => {},
        }
    } else {
        match ty {
            Ty::Box(t) => {
                assert(unboxed(ty, 1) == unboxed(*t, 0));
            },
            _ => {},
        }
    }
}

/// What is inside boxes borrows what the boxed value borrows, and is plain
/// if the boxed value is.
pub proof fn lemma_unboxed(ty: Ty, k: nat)
    requires
        boxes(ty) >= k,
    ensures
        borrowing(unboxed(ty, k)) == borrowing(ty),
        plain(ty) ==> plain(unboxed(ty, k)),
    decreases k,
{
    if k > 0 {
        match ty {
            Ty::Box(t) => {
                lemma_unboxed(*t, (k - 1) as nat);
            },
            _ => {},
        }
    }
}

/// A place can be moved out of a name exactly when the type of the name has
/// as many boxes as the place has dereferences; what is left borrows
/// nothing.
pub proof fn lemma_undefine(ty: Ty, lv: Place)
    ensures
        ty.can_undefine(lv) <==> boxes(ty) >= lv.depth(),
        ty.can_undefine(lv) ==> borrowing(ty.undefine(lv)) is None,
        ty.can_undefine(lv) && plain(ty) ==> plain(ty.undefine(lv)),
    decreases lv,
{
    match lv {
        Place::Variable { .. } => {},
        Place::Deref { var } => match ty {
            Ty::Box(t) => {
                lemma_undefine(*t, *var);
            },
            _ => {},
        },
    }
}

/// The type of a place that stays inside the boxes of its variable is what
/// those boxes hold.
pub proof fn lemma_place_type_boxed(g: Gamma, lv: Place)
    requires
        slot_of(g, lv.name()) is Ok,
        boxes(slot_of(g, lv.name())->Ok_0.value) >= lv.depth(),
    ensures
        place_type(g, lv) == Ok::<Ty, crate::constants::Fault>(
            unboxed(slot_of(g, lv.name())->Ok_0.value, lv.depth()),
        ),
    decreases lv,
{
    match lv {
        Place::Variable { .. } => {},
        Place::Deref { var } => {
            lemma_place_type_boxed(g, *var);
            lemma_unboxed_step(slot_of(g, lv.name())->Ok_0.value, var.depth());
        },
    }
}

/// A place that has a type starts from a variable that holds a value.
pub proof fn lemma_typed_slot(g: Gamma, lv: Place)
    requires
        place_type(g, lv) is Ok,
    ensures
        slot_of(g, lv.name()) is Ok,
    decreases lv,
{
    match lv {
        Place::Variable { .. } => {},
        Place::Deref { var } => {
            lemma_typed_slot(g, *var);
        },
    }
}

/// The type of a place is, but for boxes, the type of some binding: it
/// borrows what that binding borrows, or nothing. Gives the index of the
/// binding.
pub proof fn lemma_place_type_entry(g: Gamma, lv: Place) -> (i: int)
    requires
        place_type(g, lv) is Ok,
    ensures
        0 <= i < g.len(),
        borrowing(place_type(g, lv)->Ok_0) is Some ==> borrowing(g[i].1.value) == borrowing(
            place_type(g, lv)->Ok_0,
        ),
        plain(g[i].1.value) ==> plain(place_type(g, lv)->Ok_0),
    decreases lv,
{
    match lv {
        Place::Variable { name, .. } => {
            lemma_find(g, name);
            find(g, name)->0
        },
        Place::Deref { var } => {
            let i = lemma_place_type_entry(g, *var);
            match place_type(g, *var)->Ok_0 {
                Ty::Reference { var: v, .. } => {
                    lemma_find(g, v.name());
                    find(g, v.name())->0
                },
                _ => i,
            }
        },
    }
}

/// What a write changes of an environment: nothing, or one binding.
pub enum Change {
    Nothing,
    Binding { name: Seq<char>, value: Ty, lifetime: usize },
}

/// The environment with the change made.
pub open spec fn changed(g: Gamma, c: Change) -> Gamma {
    match c {
        Change::Nothing => g,
        Change::Binding { name, value, lifetime } => put(g, name, Slot { value, lifetime }),
    }
}

/// Whether the type that a change binds is the written type `t` inside
/// boxes: it borrows what `t` borrows, and is plain if `t` is.
pub open spec fn carries(c: Change, t: Ty) -> bool {
    match c {
        Change::Nothing => true,
        Change::Binding { value, .. } => borrowing(value) == borrowing(t) && (plain(t) ==> plain(
            value,
        )),
    }
}

/// A write changes at most one binding, to the written type inside boxes:
/// the binding at the end of the references that the write follows. Gives
/// the change.
pub proof fn lemma_written(g: Gamma, lv: Place, t: Ty, fuel: nat) -> (c: Change)
    requires
        written(g, lv, t, fuel) is Ok,
    ensures
        written(g, lv, t, fuel)->Ok_0 == changed(g, c),
        carries(c, t),
    decreases fuel, lv, 1nat,
{
    let x = lv.name();
    let s = slot_of(g, x)->Ok_0;
    let (g2, t3) = updated(g, lv, s.value, t, fuel)->Ok_0;
    let (direct, inner) = lemma_updated(g, lv, s.value, t, fuel);
    assert(lookup(g, x) == Some(s));
    if direct {
        Change::Binding { name: x, value: t3, lifetime: s.lifetime }
    } else {
        assert(Slot { value: t3, lifetime: s.lifetime } == s);
        match inner {
            Change::Nothing => {
                lemma_put_same(g, x);
                Change::Nothing
            },
            Change::Binding { name, value, lifetime } => {
                if name == x {
                    lemma_put_twice(g, x, Slot { value, lifetime }, s);
                    lemma_put_same(g, x);
                    Change::Nothing
                } else {
                    lemma_put(g, name, Slot { value, lifetime }, x);
                    lemma_put_same(g2, x);
                    inner
                }
            },
        }
    }
}

/// The descent of a write either leaves the environment as it is and gives
/// the written type inside boxes, or makes the change of a write through a
/// reference and gives back the type it found. Says which, and gives the
/// change.
pub proof fn lemma_updated(g: Gamma, lv: Place, cur: Ty, t: Ty, fuel: nat) -> (r: (bool, Change))
    requires
        updated(g, lv, cur, t, fuel) is Ok,
    ensures
        r.0 ==> updated(g, lv, cur, t, fuel)->Ok_0.0 == g && borrowing(
            updated(g, lv, cur, t, fuel)->Ok_0.1,
        ) == borrowing(t) && (plain(t) ==> plain(updated(g, lv, cur, t, fuel)->Ok_0.1)),
        !r.0 ==> updated(g, lv, cur, t, fuel)->Ok_0.0 == changed(g, r.1) && carries(r.1, t)
            && updated(g, lv, cur, t, fuel)->Ok_0.1 == cur,
    decreases fuel, lv, 0nat,
{
    match lv {
        Place::Variable { .. } => (true, Change::Nothing),
        Place::Deref { var } => match cur {
            Ty::Box(inner) => {
                let r = lemma_updated(g, *var, *inner, t, fuel);
                r
            },
            Ty::Reference { var: r, mutable } => {
                let c = lemma_written(g, r, t, (fuel - 1) as nat);
                (false, c)
            },
            _ => (true, Change::Nothing),
        },
    }
}

/// A write of a type that the environment admits keeps the environment
/// exclusive, and plain if the type is.
pub proof fn lemma_written_exclusive(g: Gamma, lv: Place, t: Ty, fuel: nat)
    requires
        exclusive(g),
        admits(g, t),
        written(g, lv, t, fuel) is Ok,
    ensures
        exclusive(written(g, lv, t, fuel)->Ok_0),
        env_plain(g) && plain(t) ==> env_plain(written(g, lv, t, fuel)->Ok_0),
{
    let c = lemma_written(g, lv, t, fuel);
    match c {
        Change::Nothing => {},
        Change::Binding { name, value, lifetime } => {
            assert(admits(g, value));
            lemma_put_exclusive(g, name, value, lifetime);
        },
    }
}

/// The conclusion of the main lemma: the environment after a check is
/// exclusive and plain, admits the type that the check found, and that type
/// is plain.
pub open spec fn kept(g2: Gamma, ty: Ty) -> bool {
    exclusive(g2) && env_plain(g2) && admits(g2, ty) && plain(ty)
}

/// A read of a place, by copy or by move, keeps the environment exclusive
/// and gives a type that the environment admits.
pub proof fn lemma_read_exclusive(lv: Place, g: Gamma, l: usize)
    requires
        exclusive(g),
        env_plain(g),
        check(Expr::Variable(lv), g, l).1 is Ok,
    ensures
        kept(
            check(Expr::Variable(lv), g, l).1->Ok_0.0,
            check(Expr::Variable(lv), g, l).1->Ok_0.1,
        ),
{
    let ty = place_type(g, lv)->Ok_0;
    let i = lemma_place_type_entry(g, lv);
    if ty.copyable() {
        assert forall|j: int| 0 <= j < g.len() implies compatible(
            borrowing(ty),
            borrowing((#[trigger] g[j]).1.value),
        ) by {
            if borrowing(ty) is Some && i != j {
                assert(compatible(borrowing(g[i].1.value), borrowing(g[j].1.value)));
            }
        }
    } else {
        let x = lv.name();
        lemma_typed_slot(g, lv);
        let s = slot_of(g, x)->Ok_0;
        lemma_find(g, x);
        let at = find(g, x)->0;
        lemma_undefine(s.value, lv);
        lemma_place_type_boxed(g, lv);
        lemma_unboxed(s.value, lv.depth());
        let g2 = moved(g, lv)->Ok_0;
        let left = s.value.undefine(lv);
        assert(admits(g, left));
        lemma_put_exclusive(g, x, left, s.lifetime);
        assert forall|j: int| 0 <= j < g2.len() implies compatible(
            borrowing(ty),
            borrowing((#[trigger] g2[j]).1.value),
        ) by {
            if j != at {
                assert(g2[j] == g[j]);
                assert(compatible(borrowing(g[at].1.value), borrowing(g[j].1.value)));
            }
        }
    }
}

/// A borrow that checks gives a type that the environment admits.
pub proof fn lemma_borrow_exclusive(mutable: bool, var: Place, g: Gamma)
    requires
        exclusive(g),
        env_plain(g),
        check_borrow(mutable, var, g) is Ok,
    ensures
        kept(check_borrow(mutable, var, g)->Ok_0.0, check_borrow(mutable, var, g)->Ok_0.1),
{
    let ty = check_borrow(mutable, var, g)->Ok_0.1;
    match var {
        Place::Variable { name, .. } => {
            lemma_borrowed(g, name, true);
            lemma_borrowed(g, name, false);
            assert(var.erased() == Place::variable(name));
            assert(ty == borrow(name, mutable));
            assert(borrowing(ty) == Some((name, mutable)));
            assert(!borrowed(g, name, true));
            assert(mutable ==> !borrowed(g, name, false));
            assert forall|j: int| 0 <= j < g.len() implies compatible(
                borrowing(ty),
                borrowing((#[trigger] g[j]).1.value),
            ) by {
                match borrowing(g[j].1.value) {
                    Some((y, m2)) => {
                        if y == name && (mutable || m2) {
                            if m2 {
                                assert(borrowing(g[j].1.value) == Some((name, true)));
                            } else {
                                assert(borrowing(g[j].1.value) == Some((name, false)));
                            }
                        }
                    },
                    None => {},
                }
            }
        },
        Place::Deref { var: inner } => {
            assert(var.erased() is Deref);
            assert(borrowing(ty) is None);
        },
    }
}

/// The main lemma. A check that succeeds in an exclusive environment leaves
/// an exclusive environment, and gives a type that the environment admits.
pub proof fn lemma_check_exclusive(t: Expr, g: Gamma, l: usize)
    requires
        exclusive(g),
        env_plain(g),
        declares_plainly(t),
        check(t, g, l).1 is Ok,
    ensures
        kept(check(t, g, l).1->Ok_0.0, check(t, g, l).1->Ok_0.1),
    decreases t,
{
    match t {
        Expr::Value(_) => {},
        Expr::Variable(lv) => {
            lemma_read_exclusive(lv, g, l);
        },
        Expr::Box { term } => {
            lemma_check_exclusive(*term, g, l);
        },
        Expr::Ref { mutable, var } => {
            lemma_borrow_exclusive(mutable, var, g);
        },
        Expr::Let { variable, term, .. } => {
            lemma_check_exclusive(*term, g, l);
            let (g2, ty) = check(*term, g, l).1->Ok_0;
            lemma_put_exclusive(g2, variable.name(), ty, l);
        },
        Expr::Assign { variable, term } => {
            lemma_check_exclusive(*term, g, l);
            let (g2, t2) = check(*term, g, l).1->Ok_0;
            lemma_written_exclusive(g2, variable, t2, g2.len());
        },
        Expr::FunctionCall { name, params } => {
            let slot = slot_of(g, name)->Ok_0;
            lemma_find(g, name);
            assert(plain(g[find(g, name)->0].1.value));
            lemma_check_args_exclusive(params, slot.value->Function_args, g, l);
        },
        Expr::FunctionDeclaration { name, args, ty, .. } => {
            let f = function_type(args, ty);
            assert(borrowing(f) is None);
            assert(plain(f));
            lemma_put_exclusive(g, name, f, l);
        },
    }
}

/// The check of the parameters of a call keeps the environment exclusive.
pub proof fn lemma_check_args_exclusive(ps: Seq<Expr>, args: Seq<Ty>, g: Gamma, l: usize)
    requires
        exclusive(g),
        env_plain(g),
        forall|i: int| 0 <= i < ps.len() ==> declares_plainly(#[trigger] ps[i]),
        check_args(ps, args, g, l).1 is Ok,
    ensures
        exclusive(check_args(ps, args, g, l).1->Ok_0),
        env_plain(check_args(ps, args, g, l).1->Ok_0),
    decreases ps,
{
    if ps.len() > 0 {
        let init = ps.drop_last();
        assert forall|i: int| 0 <= i < init.len() implies declares_plainly(#[trigger] init[i]) by {
            assert(init[i] == ps[i]);
        }
        lemma_check_args_exclusive(init, args, g, l);
        let g1 = check_args(init, args, g, l).1->Ok_0;
        assert(declares_plainly(ps[ps.len() - 1]));
        lemma_check_exclusive(ps.last(), g1, l);
    }
}

/// The check of a sequence of terms keeps the environment exclusive.
pub proof fn lemma_check_seq_exclusive(ts: Seq<Expr>, g: Gamma, l: usize)
    requires
        exclusive(g),
        env_plain(g),
        forall|i: int| 0 <= i < ts.len() ==> declares_plainly(#[trigger] ts[i]),
        check_seq(ts, g, l).1 is Ok,
    ensures
        exclusive(check_seq(ts, g, l).1->Ok_0.0),
        env_plain(check_seq(ts, g, l).1->Ok_0.0),
    decreases ts.len(),
{
    if ts.len() > 0 {
        let init = ts.drop_last();
        assert forall|i: int| 0 <= i < init.len() implies declares_plainly(#[trigger] init[i]) by {
            assert(init[i] == ts[i]);
        }
        lemma_check_seq_exclusive(init, g, l);
        let g1 = check_seq(init, g, l).1->Ok_0.0;
        assert(declares_plainly(ts[ts.len() - 1]));
        lemma_check_exclusive(ts.last(), g1, l);
    }
}

/// A write keeps the names of the environment distinct.
pub proof fn lemma_written_distinct(g: Gamma, lv: Place, t: Ty, fuel: nat)
    requires
        distinct_keys(g),
        written(g, lv, t, fuel) is Ok,
    ensures
        distinct_keys(written(g, lv, t, fuel)->Ok_0),
{
    let c = lemma_written(g, lv, t, fuel);
    match c {
        Change::Nothing => {},
        Change::Binding { name, value, lifetime } => {
            lemma_put_distinct(g, name, Slot { value, lifetime });
        },
    }
}

/// A check that succeeds keeps the names of the environment distinct: no
/// name is ever bound twice.
pub proof fn check_keeps_names_distinct(t: Expr, g: Gamma, l: usize)
    requires
        distinct_keys(g),
        check(t, g, l).1 is Ok,
    ensures
        distinct_keys(check(t, g, l).1->Ok_0.0),
    decreases t,
{
    match t {
        Expr::Variable(lv) => {
            let ty = place_type(g, lv)->Ok_0;
            if !ty.copyable() {
                let s = lookup(g, lv.name())->0;
                lemma_put_distinct(
                    g,
                    lv.name(),
                    Slot { value: s.value.undefine(lv), lifetime: s.lifetime },
                );
            }
        },
        Expr::Box { term } => {
            check_keeps_names_distinct(*term, g, l);
        },
        Expr::Let { variable, term, .. } => {
            check_keeps_names_distinct(*term, g, l);
            let (g2, ty) = check(*term, g, l).1->Ok_0;
            lemma_put_distinct(g2, variable.name(), Slot { value: ty, lifetime: l });
        },
        Expr::Assign { variable, term } => {
            check_keeps_names_distinct(*term, g, l);
            let (g2, t2) = check(*term, g, l).1->Ok_0;
            lemma_written_distinct(g2, variable, t2, g2.len());
        },
        Expr::FunctionCall { name, params } => {
            let slot = slot_of(g, name)->Ok_0;
            lemma_check_args_distinct(params, slot.value->Function_args, g, l);
        },
        Expr::FunctionDeclaration { name, args, ty, .. } => {
            lemma_put_distinct(g, name, Slot { value: function_type(args, ty), lifetime: l });
        },
        _ => {},
    }
}

/// The check of the parameters of a call keeps the names distinct.
pub proof fn lemma_check_args_distinct(ps: Seq<Expr>, args: Seq<Ty>, g: Gamma, l: usize)
    requires
        distinct_keys(g),
        check_args(ps, args, g, l).1 is Ok,
    ensures
        distinct_keys(check_args(ps, args, g, l).1->Ok_0),
    decreases ps,
{
    if ps.len() > 0 {
        lemma_check_args_distinct(ps.drop_last(), args, g, l);
        check_keeps_names_distinct(ps.last(), check_args(ps.drop_last(), args, g, l).1->Ok_0, l);
    }
}

/// The check of a sequence of terms keeps the names distinct.
pub proof fn program_keeps_names_distinct(ts: Seq<Expr>, g: Gamma, l: usize)
    requires
        distinct_keys(g),
        check_seq(ts, g, l).1 is Ok,
    ensures
        distinct_keys(check_seq(ts, g, l).1->Ok_0.0),
    decreases ts.len(),
{
    if ts.len() > 0 {
        program_keeps_names_distinct(ts.drop_last(), g, l);
        check_keeps_names_distinct(ts.last(), check_seq(ts.drop_last(), g, l).1->Ok_0.0, l);
    }
}

/// Borrow exclusivity. Where the type of one binding contains a mutable
/// borrow of a variable, the type of no other binding contains a borrow of
/// that variable. This holds of the empty environment, and every check that
/// succeeds keeps it, as long as no function is declared to return a type
/// that borrows (the surface syntax has no such type).
pub proof fn check_keeps_borrows_exclusive(t: Expr, g: Gamma, l: usize)
    requires
        borrows_exclusive(g),
        env_plain(g),
        declares_plainly(t),
        check(t, g, l).1 is Ok,
    ensures
        borrows_exclusive(check(t, g, l).1->Ok_0.0),
        env_plain(check(t, g, l).1->Ok_0.0),
{
    lemma_exclusive_agree(g);
    lemma_check_exclusive(t, g, l);
    lemma_exclusive_agree(check(t, g, l).1->Ok_0.0);
}

/// Borrow exclusivity holds of the environment of every program that
/// checks, as long as no function is declared to return a type that
/// borrows.
pub proof fn program_keeps_borrows_exclusive(ts: Seq<Expr>, l: usize)
    requires
        forall|i: int| 0 <= i < ts.len() ==> declares_plainly(#[trigger] ts[i]),
        check_seq(ts, Seq::empty(), l).1 is Ok,
    ensures
        borrows_exclusive(check_seq(ts, Seq::empty(), l).1->Ok_0.0),
{
    let g: Gamma = Seq::empty();
    lemma_check_seq_exclusive(ts, g, l);
    lemma_exclusive_agree(check_seq(ts, g, l).1->Ok_0.0);
}

/// A run keeps the environment exclusive and plain.
pub proof fn lemma_steps_exclusive(ts: Seq<Expr>, x: Session)
    requires
        exclusive(x.env),
        env_plain(x.env),
        forall|i: int| 0 <= i < ts.len() ==> declares_plainly(#[trigger] ts[i]),
    ensures
        exclusive(steps(ts, x).0.env),
        env_plain(steps(ts, x).0.env),
    decreases ts.len(),
{
    if ts.len() > 0 {
        let init = ts.drop_last();
        assert forall|i: int| 0 <= i < init.len() implies declares_plainly(#[trigger] init[i]) by {
            assert(init[i] == ts[i]);
        }
        lemma_steps_exclusive(init, x);
        let x1 = steps(init, x).0;
        assert(declares_plainly(ts[ts.len() - 1]));
        if steps(init, x).1 is Ok && step(x1, ts.last()) is Ok {
            lemma_check_exclusive(ts.last(), x1.env, 0);
        }
    }
}

/// Borrow exclusivity holds of the environment that a run from the initial
/// state has reached, whether it has failed or not, as long as no function
/// is declared to return a type that borrows.
pub proof fn run_keeps_borrows_exclusive(ts: Seq<Expr>)
    requires
        forall|i: int| 0 <= i < ts.len() ==> declares_plainly(#[trigger] ts[i]),
    ensures
        borrows_exclusive(steps(ts, initial()).0.env),
{
    lemma_steps_exclusive(ts, initial());
    lemma_exclusive_agree(steps(ts, initial()).0.env);
}

} // verus!
