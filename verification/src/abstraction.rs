//! Safe abstraction under allocation, definition and declaration: where
//! the environment describes the state, it still does after a new cell, a
//! new variable with a valid value, or a new function.
use crate::ast::{Pointer, Val};
use crate::constants::Fault;
use crate::preservation::{lemma_reads_live_cells, reaches};
use crate::properties::{abstraction_safe, name_valid, names_valid, value_valid};
use crate::reduction::define;
use crate::state::{fresh, frame_names, lemma_fresh_next, Machine, Routine};
use crate::table::{find, keys, lemma_find, lemma_put, put};
use crate::theorems::{lemma_add_names, lemma_names_valid};
use crate::typing::{domain, lemma_domain_entry, partial_slot, Gamma, Slot, Ty};
use vstd::prelude::*;

verus! {

/// Whether the state `m2` knows every variable that `m` knows.
pub open spec fn knows_more(m: Machine, m2: Machine) -> bool {
    forall|z: Seq<char>| (#[trigger] m.locate(z)) is Ok ==> m2.locate(z) is Ok
}

/// A decision stands in a state that knows more variables and differs in a
/// cell that the decision does not read.
pub proof fn lemma_grown(m: Machine, m2: Machine, v: Val, t: Ty, a: usize, s: Slot<Val>)
    requires
        value_valid(m, v, t) == Ok::<bool, Fault>(true),
        !reaches(m, v, t, a),
        knows_more(m, m2),
        m2.heap.cells == put(m.heap.cells, a, s),
    ensures
        value_valid(m2, v, t) == Ok::<bool, Fault>(true),
    decreases t,
{
    match t {
        Ty::Undefined(inner) => {
            if !(v is Undefined) {
                lemma_grown(m, m2, v, *inner, a, s);
            }
        },
        Ty::Box(inner) => {
            match v {
                Val::Reference(p) => {
                    lemma_put(m.heap.cells, a, s, p.location);
                    let held = m.heap.read(p.location)->Ok_0;
                    lemma_grown(m, m2, held, *inner, a, s);
                },
                _ => {},
            }
        },
        Ty::Reference { var, .. } => {
            assert(m.locate(var.name()) is Ok);
        },
        _ => {},
    }
}

/// A decision stands in a state that knows more variables and has the same
/// cells.
pub proof fn lemma_same_cells(m: Machine, m2: Machine, v: Val, t: Ty)
    requires
        value_valid(m, v, t) == Ok::<bool, Fault>(true),
        knows_more(m, m2),
        m2.heap.cells == m.heap.cells,
    ensures
        value_valid(m2, v, t) == Ok::<bool, Fault>(true),
    decreases t,
{
    match t {
        Ty::Undefined(inner) => {
            if !(v is Undefined) {
                lemma_same_cells(m, m2, v, *inner);
            }
        },
        Ty::Box(inner) => {
            match v {
                Val::Reference(p) => {
                    let held = m.heap.read(p.location)->Ok_0;
                    lemma_same_cells(m, m2, held, *inner);
                },
                _ => {},
            }
        },
        Ty::Reference { var, .. } => {
            assert(m.locate(var.name()) is Ok);
        },
        _ => {},
    }
}

/// A binding to something other than a function puts its name in the
/// domain.
pub proof fn lemma_entry_in_domain(g: Gamma, i: int)
    requires
        0 <= i < g.len(),
        !(g[i].1.value is Function),
    ensures
        domain(g).contains(g[i].0),
    decreases g.len(),
{
    let init = g.drop_last();
    if i == g.len() - 1 {
        let d = domain(init).push(g[i].0);
        assert(d[d.len() - 1] == g[i].0);
    } else {
        assert(init[i] == g[i]);
        lemma_entry_in_domain(init, i);
        let j = choose|j: int| 0 <= j < domain(init).len() && domain(init)[j] == g[i].0;
        assert(domain(g)[j] == g[i].0);
    }
}

/// The domain after a name has been bound to something other than a
/// function: the name, and what was in the domain before.
pub proof fn lemma_domain_put(g: Gamma, x: Seq<char>, s: Slot<Ty>, k: Seq<char>)
    requires
        !(s.value is Function),
    ensures
        domain(put(g, x, s)).contains(k) <==> k == x || domain(g).contains(k),
{
    lemma_find(g, x);
    let g2 = put(g, x, s);
    let at = match find(g, x) {
        Some(i) => i,
        None => g.len() as int,
    };
    assert(g2[at] == (x, s));
    if domain(g2).contains(k) && k != x {
        let i = lemma_domain_entry(g2, k);
        assert(g2[i] == g[i]);
        lemma_entry_in_domain(g, i);
    }
    if k == x {
        lemma_entry_in_domain(g2, at);
    }
    if domain(g).contains(k) && k != x {
        let i = lemma_domain_entry(g, k);
        assert(g2[i] == g[i]);
        lemma_entry_in_domain(g2, i);
    }
}

/// The domain after a name outside it has been bound to a function: what
/// it was before.
pub proof fn lemma_domain_put_function(g: Gamma, f: Seq<char>, s: Slot<Ty>, k: Seq<char>)
    requires
        s.value is Function,
        !domain(g).contains(f),
    ensures
        domain(put(g, f, s)).contains(k) <==> domain(g).contains(k),
{
    lemma_find(g, f);
    let g2 = put(g, f, s);
    let at = match find(g, f) {
        Some(i) => i,
        None => g.len() as int,
    };
    assert(g2[at] == (f, s));
    if domain(g2).contains(k) {
        let i = lemma_domain_entry(g2, k);
        assert(i != at);
        assert(g2[i] == g[i]);
        lemma_entry_in_domain(g, i);
    }
    if domain(g).contains(k) {
        let i = lemma_domain_entry(g, k);
        if i == at {
            lemma_entry_in_domain(g, i);
        }
        assert(g2[i] == g[i]);
        lemma_entry_in_domain(g2, i);
    }
}

/// Where each of the first `n` names is valid, so are they all together.
pub proof fn lemma_all_names_valid(m: Machine, g: Gamma, d: Seq<Seq<char>>, n: nat)
    requires
        n <= d.len(),
        forall|i: int| 0 <= i < n ==> name_valid(m, g, #[trigger] d[i]) == Ok::<bool, Fault>(true),
    ensures
        names_valid(m, g, d, n) == Ok::<bool, Fault>(true),
    decreases n,
{
    if n > 0 {
        lemma_all_names_valid(m, g, d, (n - 1) as nat);
    }
}

/// The environment describes the state exactly when both bind the same
/// names, functions apart, and every name of the domain is valid.
pub proof fn lemma_safe(m: Machine, g: Gamma)
    ensures
        abstraction_safe(m, g) == Ok::<bool, Fault>(true) <==> m.dom().to_set() == domain(
            g,
        ).to_set() && forall|k: Seq<char>|
            domain(g).contains(k) ==> #[trigger] name_valid(m, g, k) == Ok::<bool, Fault>(true),
{
    let d = domain(g);
    if abstraction_safe(m, g) == Ok::<bool, Fault>(true) {
        assert forall|k: Seq<char>| d.contains(k) implies #[trigger] name_valid(m, g, k) == Ok::<
            bool,
            Fault,
        >(true) by {
            let i = choose|i: int| 0 <= i < d.len() && d[i] == k;
            lemma_names_valid(m, g, d, d.len(), i);
        }
    }
    if m.dom().to_set() == d.to_set() && forall|k: Seq<char>|
        d.contains(k) ==> #[trigger] name_valid(m, g, k) == Ok::<bool, Fault>(true) {
        assert forall|i: int| 0 <= i < d.len() implies name_valid(m, g, #[trigger] d[i]) == Ok::<
            bool,
            Fault,
        >(true) by {
            assert(d.contains(d[i]));
        }
        lemma_all_names_valid(m, g, d, d.len());
    }
}

/// The keys after a key has been bound: the key, and the keys before.
pub proof fn lemma_keys_put(s: Seq<(Seq<char>, Pointer)>, x: Seq<char>, p: Pointer)
    ensures
        keys(put(s, x, p)).to_set() == keys(s).to_set().insert(x),
{
    lemma_find(s, x);
    let s2 = put(s, x, p);
    let at = match find(s, x) {
        Some(i) => i,
        None => s.len() as int,
    };
    assert forall|k: Seq<char>| keys(s2).to_set().contains(k) == keys(s).to_set().insert(
        x,
    ).contains(k) by {
        if keys(s2).contains(k) {
            let i = choose|i: int| 0 <= i < keys(s2).len() && keys(s2)[i] == k;
            if i != at {
                assert(keys(s)[i] == k);
            }
        }
        if keys(s).contains(k) {
            let i = choose|i: int| 0 <= i < keys(s).len() && keys(s)[i] == k;
            assert(keys(s2)[i] == k);
        }
        if k == x {
            assert(keys(s2)[at] == x);
        }
    }
    assert(keys(s2).to_set() =~= keys(s).to_set().insert(x));
}

/// The names that a state binds after a name has been bound in the
/// innermost frame: the name, and the names before.
pub proof fn lemma_dom_bind(m: Machine, x: Seq<char>, p: Pointer)
    requires
        m.stack.len() > 0,
    ensures
        m.bind(x, p).dom().to_set() == m.dom().to_set().insert(x),
{
    let m2 = m.bind(x, p);
    assert(m2.stack.drop_last() =~= m.stack.drop_last());
    let below = frame_names(m.stack.drop_last());
    lemma_add_names(below, keys(m.stack.last().locations));
    lemma_add_names(below, keys(m2.stack.last().locations));
    lemma_keys_put(m.stack.last().locations, x, p);
    assert(m2.dom().to_set() =~= m.dom().to_set().insert(x));
}

/// A new cell leaves the environment a description of the state.
pub proof fn abstraction_kept_by_allocation(m: Machine, g: Gamma, v: Val, l: usize)
    requires
        abstraction_safe(m, g) == Ok::<bool, Fault>(true),
        fresh(m.heap),
    ensures
        abstraction_safe(m.insert(l, v), g) == Ok::<bool, Fault>(true),
{
    let m2 = m.insert(l, v);
    let a = m.heap.next;
    let s = Slot { value: v, lifetime: l };
    lemma_safe(m, g);
    lemma_safe(m2, g);
    lemma_fresh_next(m.heap);
    assert forall|k: Seq<char>| domain(g).contains(k) implies #[trigger] name_valid(m2, g, k)
        == Ok::<bool, Fault>(true) by {
        assert(name_valid(m, g, k) == Ok::<bool, Fault>(true));
        let p = m.locate(k)->Ok_0;
        lemma_put(m.heap.cells, a, s, p.location);
        let held = m.heap.read(p.location)->Ok_0;
        let ty = partial_slot(g, k)->Ok_0.value;
        lemma_reads_live_cells(m, held, ty, a);
        lemma_grown(m, m2, held, ty, a, s);
    }
}

/// The definition of a variable with a valid value leaves the environment,
/// with the variable bound to the type of the value, a description of the
/// state.
pub proof fn abstraction_kept_by_definition(
    m: Machine,
    g: Gamma,
    x: Seq<char>,
    v: Val,
    t: Ty,
    l: usize,
)
    requires
        abstraction_safe(m, g) == Ok::<bool, Fault>(true),
        fresh(m.heap),
        value_valid(m, v, t) == Ok::<bool, Fault>(true),
        define(m, x, v, l) is Ok,
    ensures
        abstraction_safe(define(m, x, v, l)->Ok_0, put(g, x, Slot { value: t, lifetime: l }))
            == Ok::<bool, Fault>(true),
{
    let m2 = define(m, x, v, l)->Ok_0;
    let g2 = put(g, x, Slot { value: t, lifetime: l });
    let a = m.heap.next;
    let s = Slot { value: v, lifetime: l };
    let p = m.heap.fresh();
    lemma_safe(m, g);
    lemma_safe(m2, g2);
    lemma_fresh_next(m.heap);
    lemma_dom_bind(m.insert(l, v), x, p);
    assert(m.insert(l, v).dom() == m.dom());
    assert forall|k: Seq<char>| domain(g2).to_set().contains(k) == domain(g).to_set().insert(
        x,
    ).contains(k) by {
        lemma_domain_put(g, x, Slot { value: t, lifetime: l }, k);
    }
    assert(domain(g2).to_set() =~= domain(g).to_set().insert(x));
    assert(knows_more(m, m2)) by {
        assert forall|z: Seq<char>| (#[trigger] m.locate(z)) is Ok implies m2.locate(z) is Ok by {
            lemma_put(m.top().locations, x, p, z);
        }
    }
    assert forall|k: Seq<char>| domain(g2).contains(k) implies #[trigger] name_valid(m2, g2, k)
        == Ok::<bool, Fault>(true) by {
        lemma_domain_put(g, x, Slot { value: t, lifetime: l }, k);
        lemma_put(g, x, Slot { value: t, lifetime: l }, k);
        lemma_put(m.top().locations, x, p, k);
        if k == x {
            lemma_put(m.heap.cells, a, s, a);
            lemma_reads_live_cells(m, v, t, a);
            lemma_grown(m, m2, v, t, a, s);
        } else {
            assert(name_valid(m, g, k) == Ok::<bool, Fault>(true));
            let q = m.locate(k)->Ok_0;
            lemma_put(m.heap.cells, a, s, q.location);
            let held = m.heap.read(q.location)->Ok_0;
            let ty = partial_slot(g, k)->Ok_0.value;
            lemma_reads_live_cells(m, held, ty, a);
            lemma_grown(m, m2, held, ty, a, s);
        }
    }
}

/// The declaration of a function under a name that is no variable leaves
/// the environment, with the name bound to the function's type, a
/// description of the state.
pub proof fn abstraction_kept_by_declaration(
    m: Machine,
    g: Gamma,
    f: Seq<char>,
    routine: Routine,
    ty: Ty,
    l: usize,
)
    requires
        abstraction_safe(m, g) == Ok::<bool, Fault>(true),
        ty is Function,
        !domain(g).contains(f),
        m.stack.len() > 0,
    ensures
        abstraction_safe(m.add_function(f, routine), put(g, f, Slot { value: ty, lifetime: l }))
            == Ok::<bool, Fault>(true),
{
    let m2 = m.add_function(f, routine);
    let g2 = put(g, f, Slot { value: ty, lifetime: l });
    lemma_safe(m, g);
    lemma_safe(m2, g2);
    assert(m2.stack.drop_last() =~= m.stack.drop_last());
    assert(m2.dom() == m.dom());
    assert forall|k: Seq<char>| domain(g2).to_set().contains(k) == domain(g).to_set().contains(
        k,
    ) by {
        lemma_domain_put_function(g, f, Slot { value: ty, lifetime: l }, k);
    }
    assert(domain(g2).to_set() =~= domain(g).to_set());
    assert(knows_more(m, m2));
    assert forall|k: Seq<char>| domain(g2).contains(k) implies #[trigger] name_valid(m2, g2, k)
        == Ok::<bool, Fault>(true) by {
        lemma_domain_put_function(g, f, Slot { value: ty, lifetime: l }, k);
        lemma_put(g, f, Slot { value: ty, lifetime: l }, k);
        assert(name_valid(m, g, k) == Ok::<bool, Fault>(true));
        let q = m.locate(k)->Ok_0;
        let held = m.heap.read(q.location)->Ok_0;
        lemma_same_cells(m, m2, held, partial_slot(g, k)->Ok_0.value);
    }
}

} // verus!
