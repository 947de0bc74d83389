//! The runtime state: a store of cells, each with a value and a lifetime,
//! and a stack of frames that bind names to cells and to functions.
use crate::ast::{views, Argument, Expr, LVal, Param, Place, Pointer, Reference, Term, Val, Value};
use crate::ast::{replicate_arguments, replicate_terms};
use crate::constants::{outcome, Failure, Fault};
use crate::table::{
    bound, distinct_keys, find, keys, lemma_find, lemma_put_distinct, lookup, put, Replicate, Table,
};
use crate::typing::Slot;
use vstd::prelude::*;

verus! {

/// The arguments and the body of a declared function.
#[derive(Debug)]
pub struct Definition {
    pub args: Vec<Argument>,
    pub body: Vec<Term>,
}

/// The model of a `Definition`.
pub struct Routine {
    pub args: Seq<Param>,
    pub body: Seq<Expr>,
}

impl View for Definition {
    type V = Routine;

    open spec fn view(&self) -> Routine {
        Routine { args: views(self.args@), body: views(self.body@) }
    }
}

impl Replicate for Definition {
    fn replicate(&self) -> (r: Definition) {
        Definition { args: replicate_arguments(&self.args), body: replicate_terms(&self.body) }
    }
}

/// One frame of the stack: where each name of a scope lives, and the
/// functions that the scope can call.
#[derive(Debug)]
pub struct StackFrame {
    pub locations: Table<String, Reference>,
    pub functions: Table<String, Definition>,
}

/// The model of a `StackFrame`.
pub struct Frame {
    pub locations: Seq<(Seq<char>, Pointer)>,
    pub functions: Seq<(Seq<char>, Routine)>,
}

impl View for StackFrame {
    type V = Frame;

    open spec fn view(&self) -> Frame {
        Frame { locations: self.locations@, functions: self.functions@ }
    }
}

impl Replicate for StackFrame {
    fn replicate(&self) -> (r: StackFrame) {
        StackFrame {
            locations: self.locations.replicate(),
            functions: self.functions.replicate(),
        }
    }
}

/// The store: the cells, by address, and the address that the next cell
/// gets. Addresses grow and are never handed out twice.
#[derive(Debug)]
pub struct Store {
    pub cells: Table<usize, Slot<Value>>,
    pub next: usize,
}

/// The model of a `Store`.
pub struct Heap {
    pub cells: Seq<(usize, Slot<Val>)>,
    pub next: usize,
}

impl View for Store {
    type V = Heap;

    open spec fn view(&self) -> Heap {
        Heap { cells: self.cells@, next: self.next }
    }
}

impl Replicate for Store {
    fn replicate(&self) -> (r: Store) {
        Store { cells: self.cells.replicate(), next: self.next }
    }
}

/// The cells of `cells` whose lifetime is not `l`, in order.
pub open spec fn purge(cells: Seq<(usize, Slot<Val>)>, l: usize) -> Seq<(usize, Slot<Val>)>
    decreases cells.len(),
{
    if cells.len() == 0 {
        cells
    } else if cells.last().1.lifetime == l {
        purge(cells.drop_last(), l)
    } else {
        purge(cells.drop_last(), l).push(cells.last())
    }
}

/// The cells after `v` has been dropped. An owned reference takes its cell
/// out of the store, and then what the cell held is dropped; any other value
/// leaves the store as it is. The cell is taken out first, so that owned
/// references that lead back to themselves end at a missing cell.
pub open spec fn dropped(cells: Seq<(usize, Slot<Val>)>, v: Val) -> Result<
    Seq<(usize, Slot<Val>)>,
    Fault,
>
    decreases cells.len(),
{
    match v {
        Val::Reference(p) => if p.owned {
            match find(cells, p.location) {
                Some(i) => {
                    if 0 <= i < cells.len() {
                        dropped(cells.remove(i), cells[i].1.value)
                    } else {
                        Ok(cells)
                    }
                },
                None => Err(Fault::MissingCell(p.location)),
            }
        } else {
            Ok(cells)
        },
        _ => Ok(cells),
    }
}

impl Heap {
    /// The value of the cell at `a`.
    pub open spec fn read(self, a: usize) -> Result<Val, Fault> {
        match lookup(self.cells, a) {
            Some(s) => Ok(s.value),
            None => Err(Fault::MissingCell(a)),
        }
    }

    /// The store with `v` in the cell at `a`. The cell keeps its lifetime.
    pub open spec fn write(self, a: usize, v: Val) -> Result<Heap, Fault> {
        match lookup(self.cells, a) {
            Some(s) => Ok(
                Heap {
                    cells: put(self.cells, a, Slot { value: v, lifetime: s.lifetime }),
                    next: self.next,
                },
            ),
            None => Err(Fault::MissingCell(a)),
        }
    }

    /// The reference that the next allocation returns.
    pub open spec fn fresh(self) -> Pointer {
        Pointer { location: self.next, path: Seq::empty(), owned: true }
    }

    /// The store with a new cell that holds `v` at the lifetime `l`.
    pub open spec fn allocate(self, v: Val, l: usize) -> Heap {
        Heap {
            cells: put(self.cells, self.next, Slot { value: v, lifetime: l }),
            next: (self.next + 1) as usize,
        }
    }

    /// The store without the cells of the lifetime `l`.
    pub open spec fn drop_lifetime(self, l: usize) -> Heap {
        Heap { cells: purge(self.cells, l), next: self.next }
    }

    /// The store after `v` has been dropped.
    pub open spec fn drop(self, v: Val) -> Result<Heap, Fault> {
        match dropped(self.cells, v) {
            Ok(cells) => Ok(Heap { cells, next: self.next }),
            Err(e) => Err(e),
        }
    }
}

/// Whether every cell has an address below the one that the next cell gets.
pub open spec fn fresh(h: Heap) -> bool {
    forall|i: int| 0 <= i < h.cells.len() ==> (#[trigger] h.cells[i]).0 < h.next
}

/// The store of a fresh heap has no cell at the next address.
pub proof fn lemma_fresh_next(h: Heap)
    requires
        fresh(h),
    ensures
        lookup(h.cells, h.next) is None,
{
    lemma_find(h.cells, h.next);
}

/// Writing a value into a live cell, or a new cell at the next address,
/// keeps the heap fresh.
pub proof fn lemma_put_fresh(h: Heap, a: usize, s: Slot<Val>, next: usize)
    requires
        fresh(h),
        h.next <= next,
        a < next,
    ensures
        fresh(Heap { cells: put(h.cells, a, s), next }),
{
    lemma_find(h.cells, a);
    let h2 = Heap { cells: put(h.cells, a, s), next };
    assert forall|i: int| 0 <= i < h2.cells.len() implies (#[trigger] h2.cells[i]).0 < h2.next by {
        if i < h.cells.len() && find(h.cells, a) != Some(i) {
            assert(h2.cells[i] == h.cells[i]);
        }
    }
}

impl Store {
    /// The empty store.
    pub fn new() -> (r: Store)
        ensures
            r@ == (Heap { cells: Seq::empty(), next: 1 }),
            fresh(r@),
            distinct_keys(r@.cells),
    {
        Store { cells: Table::new(), next: 1 }
    }

    /// Puts `value` in a new cell of the lifetime `lifetime` and returns the
    /// owning reference to it.
    pub fn allocate(&mut self, value: Value, lifetime: usize) -> (r: Reference)
        requires
            old(self).next < usize::MAX,
        ensures
            final(self)@ == old(self)@.allocate(value@, lifetime),
            r@ == old(self)@.fresh(),
            fresh(old(self)@) ==> !bound(old(self)@.cells, r.location) && fresh(final(self)@),
            distinct_keys(old(self)@.cells) ==> distinct_keys(final(self)@.cells),
    {
        proof {
            if fresh(self@) {
                lemma_fresh_next(self@);
                lemma_put_fresh(
                    self@,
                    self.next,
                    Slot { value: value@, lifetime },
                    (self.next + 1) as usize,
                );
            }
        }
        let location = self.next;
        self.cells.insert(location, Slot { value, lifetime });
        self.next = location + 1;
        Reference { location, path: Vec::new(), owned: true }
    }

    /// The value of the cell that `reference` points to.
    pub fn read(&self, reference: Reference) -> (r: Result<Value, Failure>)
        ensures
            outcome(r) == self@.read(reference.location),
    {
        match self.cells.get(&reference.location) {
            Some(s) => Ok(s.value.replicate()),
            None => Err(Failure::MissingCell(reference.location)),
        }
    }

    /// Puts `value` in the cell that `reference` points to.
    pub fn write(&mut self, reference: Reference, value: Value) -> (r: Result<(), Failure>)
        ensures
            match r {
                Ok(_) => old(self)@.write(reference.location, value@) == Ok::<Heap, Fault>(
                    final(self)@,
                ),
                Err(e) => old(self)@.write(reference.location, value@) == Err::<Heap, Fault>(e@)
                    && final(self)@ == old(self)@,
            },
            fresh(old(self)@) ==> fresh(final(self)@),
            distinct_keys(old(self)@.cells) ==> distinct_keys(final(self)@.cells),
    {
        proof {
            lemma_find(self@.cells, reference.location);
            if fresh(self@) && bound(self@.cells, reference.location) {
                lemma_put_fresh(
                    self@,
                    reference.location,
                    Slot {
                        value: value@,
                        lifetime: lookup(self@.cells, reference.location)->0.lifetime,
                    },
                    self.next,
                );
            }
        }
        let lifetime = match self.cells.get(&reference.location) {
            Some(s) => s.lifetime,
            None => {
                return Err(Failure::MissingCell(reference.location));
            },
        };
        self.cells.insert(reference.location, Slot { value, lifetime });
        Ok(())
    }

    /// Removes every cell of the lifetime `lifetime`.
    pub fn drop_lifetime(&mut self, lifetime: usize)
        ensures
            final(self)@ == old(self)@.drop_lifetime(lifetime),
            fresh(old(self)@) ==> fresh(final(self)@),
            distinct_keys(old(self)@.cells) ==> distinct_keys(final(self)@.cells),
    {
        let mut kept: Table<usize, Slot<Value>> = Table::new();
        let mut kept_entries: Vec<(usize, Slot<Value>)> = Vec::new();
        let mut i: usize = 0;
        assert(self.cells@.take(0) =~= Seq::empty());
        while i < self.cells.len()
            invariant
                i <= self.cells@.len(),
                (Table::<usize, Slot<Value>> { entries: kept_entries })@ == purge(
                    self.cells@.take(i as int),
                    lifetime,
                ),
                forall|j: int|
                    0 <= j < kept_entries@.len() ==> exists|k: int|
                        0 <= k < i && self.cells@[k].0 == (#[trigger] kept_entries@[j]).0,
                distinct_keys(self.cells@) ==> distinct_keys(
                    (Table::<usize, Slot<Value>> { entries: kept_entries })@,
                ),
            decreases self.cells@.len() - i,
        {
            assert(self.cells@.take(i + 1).drop_last() =~= self.cells@.take(i as int));
            let ghost before = (Table::<usize, Slot<Value>> { entries: kept_entries })@;
            let ghost entries = kept_entries@;
            if self.cells.value_at(i).lifetime != lifetime {
                kept_entries.push((*self.cells.key_at(i), self.cells.value_at(i).replicate()));
                let ghost after = (Table::<usize, Slot<Value>> { entries: kept_entries })@;
                assert(after =~= before.push(self.cells@[i as int]));
                assert forall|j: int| 0 <= j < kept_entries@.len() implies exists|k: int|
                    0 <= k < i + 1 && self.cells@[k].0 == (#[trigger] kept_entries@[j]).0 by {
                    if j < entries.len() {
                        assert(kept_entries@[j] == entries[j]);
                        let k = choose|k: int| 0 <= k < i && self.cells@[k].0 == entries[j].0;
                        assert(self.cells@[k].0 == kept_entries@[j].0);
                    } else {
                        assert(self.cells@[i as int].0 == kept_entries@[j].0);
                    }
                }
                assert(distinct_keys(self.cells@) ==> distinct_keys(after)) by {
                    if distinct_keys(self.cells@) {
                        assert forall|a: int, b: int| 0 <= a < b < after.len() implies (
                        #[trigger] after[a]).0 != (#[trigger] after[b]).0 by {
                            if b < before.len() {
                                assert(after[a] == before[a]);
                                assert(after[b] == before[b]);
                            } else {
                                assert(after[a] == before[a]);
                                let k = choose|k: int|
                                    0 <= k < i && self.cells@[k].0 == entries[a].0;
                                assert(self.cells@[k].0 != self.cells@[i as int].0);
                            }
                        }
                    }
                }
            }
            i = i + 1;
        }
        assert(self.cells@.take(i as int) =~= self.cells@);
        kept.entries = kept_entries;
        self.cells = kept;
    }

    /// Drops `value`: an owned reference frees its cell and, in turn, what
    /// the cell held.
    pub fn drop(&mut self, value: &Value) -> (r: Result<(), Failure>)
        ensures
            match r {
                Ok(_) => old(self)@.drop(value@) == Ok::<Heap, Fault>(final(self)@),
                Err(e) => old(self)@.drop(value@) == Err::<Heap, Fault>(e@),
            },
            fresh(old(self)@) ==> fresh(final(self)@),
            distinct_keys(old(self)@.cells) ==> distinct_keys(final(self)@.cells),
        decreases old(self)@.cells.len(),
    {
        match value {
            Value::Reference(r) => {
                if r.owned {
                    match self.cells.position(&r.location) {
                        Some(i) => {
                            let held = self.cells.value_at(i).value.replicate();
                            self.cells.remove_at(i);
                            assert(fresh(old(self)@) ==> fresh(self@)) by {
                                if fresh(old(self)@) {
                                    assert forall|j: int| 0 <= j < self@.cells.len() implies (
                                    #[trigger] self@.cells[j]).0 < self@.next by {
                                        let j0 = if j < i {
                                            j
                                        } else {
                                            j + 1
                                        };
                                        assert(self@.cells[j] == old(self)@.cells[j0]);
                                    }
                                }
                            }
                            self.drop(&held)
                        },
                        None => Err(Failure::MissingCell(r.location)),
                    }
                } else {
                    Ok(())
                }
            },
            _ => Ok(()),
        }
    }

    /// The cell that `reference` points to.
    pub fn get(&self, reference: Reference) -> (r: Option<&Slot<Value>>)
        ensures
            match r {
                Some(s) => lookup(self@.cells, reference.location) == Some(s@),
                None => lookup(self@.cells, reference.location) is None,
            },
    {
        self.cells.get(&reference.location)
    }
}

/// The runtime state: the stack of frames, innermost last, and the store.
#[derive(Debug)]
pub struct State {
    pub stack: Vec<StackFrame>,
    pub heap: Store,
}

/// The model of a `State`.
pub struct Machine {
    pub stack: Seq<Frame>,
    pub heap: Heap,
}

impl View for State {
    type V = Machine;

    open spec fn view(&self) -> Machine {
        Machine { stack: views(self.stack@), heap: self.heap@ }
    }
}

impl Replicate for State {
    fn replicate(&self) -> (r: State) {
        let mut stack: Vec<StackFrame> = Vec::new();
        let mut i: usize = 0;
        while i < self.stack.len()
            invariant
                i <= self.stack@.len(),
                stack@.len() == i,
                forall|j: int| 0 <= j < i ==> (#[trigger] stack@[j])@ == self.stack@[j]@,
            decreases self.stack@.len() - i,
        {
            stack.push(self.stack[i].replicate());
            i = i + 1;
        }
        assert(views(stack@) =~= views(self.stack@));
        State { stack, heap: self.heap.replicate() }
    }
}

impl Clone for State {
    fn clone(&self) -> (r: State)
        ensures
            r@ == self@,
    {
        self.replicate()
    }
}

/// `acc`, and `k` behind it unless `acc` holds it already.
pub open spec fn add_name(acc: Seq<Seq<char>>, k: Seq<char>) -> Seq<Seq<char>> {
    if acc.contains(k) {
        acc
    } else {
        acc.push(k)
    }
}

/// `acc`, and behind it the names of `ks` that it does not hold, in order.
pub open spec fn add_names(acc: Seq<Seq<char>>, ks: Seq<Seq<char>>) -> Seq<Seq<char>>
    decreases ks.len(),
{
    if ks.len() == 0 {
        acc
    } else {
        add_name(add_names(acc, ks.drop_last()), ks.last())
    }
}

/// The names that the frames bind, each once, in the order in which the
/// frames first bind them.
pub open spec fn frame_names(stack: Seq<Frame>) -> Seq<Seq<char>>
    decreases stack.len(),
{
    if stack.len() == 0 {
        Seq::empty()
    } else {
        add_names(frame_names(stack.drop_last()), keys(stack.last().locations))
    }
}

impl Machine {
    /// The innermost frame.
    pub open spec fn top(self) -> Frame {
        self.stack.last()
    }

    /// Where the innermost frame keeps `x`.
    pub open spec fn locate(self, x: Seq<char>) -> Result<Pointer, Fault> {
        if self.stack.len() == 0 {
            Err(Fault::NoFrame)
        } else {
            match lookup(self.top().locations, x) {
                Some(p) => Ok(p),
                None => Err(Fault::UnknownVariable(x)),
            }
        }
    }

    /// The reference to the cell of the place `lv`: a variable is where the
    /// innermost frame keeps it, and a dereference is the reference that the
    /// cell of the dereferenced place holds.
    pub open spec fn loc(self, lv: Place) -> Result<Pointer, Fault>
        decreases lv,
    {
        match lv {
            Place::Variable { name, .. } => self.locate(name),
            Place::Deref { var } => match self.loc(*var) {
                Ok(p) => match self.heap.read(p.location) {
                    Ok(Val::Reference(q)) => Ok(q),
                    Ok(_) => Err(Fault::NotAPointer(var.name())),
                    Err(e) => Err(e),
                },
                Err(e) => Err(e),
            },
        }
    }

    /// The value at the place `lv`.
    pub open spec fn read(self, lv: Place) -> Result<Val, Fault> {
        match self.loc(lv) {
            Ok(p) => self.heap.read(p.location),
            Err(e) => Err(e),
        }
    }

    /// The state with `v` at the place `lv`.
    pub open spec fn write(self, lv: Place, v: Val) -> Result<Machine, Fault> {
        match self.loc(lv) {
            Ok(p) => match self.heap.write(p.location, v) {
                Ok(h) => Ok(Machine { stack: self.stack, heap: h }),
                Err(e) => Err(e),
            },
            Err(e) => Err(e),
        }
    }

    /// The state with `v` in a new cell of the lifetime `l`.
    pub open spec fn insert(self, l: usize, v: Val) -> Machine {
        Machine { stack: self.stack, heap: self.heap.allocate(v, l) }
    }

    /// The state with `x` kept at `p` in the innermost frame.
    pub open spec fn bind(self, x: Seq<char>, p: Pointer) -> Machine {
        Machine {
            stack: self.stack.update(
                self.stack.len() - 1,
                Frame {
                    locations: put(self.top().locations, x, p),
                    functions: self.top().functions,
                },
            ),
            heap: self.heap,
        }
    }

    /// The state with the function `name` known to the innermost frame.
    pub open spec fn add_function(self, name: Seq<char>, f: Routine) -> Machine {
        Machine {
            stack: self.stack.update(
                self.stack.len() - 1,
                Frame {
                    locations: self.top().locations,
                    functions: put(self.top().functions, name, f),
                },
            ),
            heap: self.heap,
        }
    }

    /// The state after `v` has been dropped.
    pub open spec fn drop(self, v: Val) -> Result<Machine, Fault> {
        match self.heap.drop(v) {
            Ok(h) => Ok(Machine { stack: self.stack, heap: h }),
            Err(e) => Err(e),
        }
    }

    /// The state without the frame at the index `l` and without the cells of
    /// the lifetime `l`.
    pub open spec fn drop_lifetime(self, l: usize) -> Machine {
        Machine { stack: self.stack.remove(l as int), heap: self.heap.drop_lifetime(l) }
    }

    /// The state with a new innermost frame that binds no name and knows the
    /// functions `functions`.
    pub open spec fn push_frame(self, functions: Seq<(Seq<char>, Routine)>) -> Machine {
        Machine {
            stack: self.stack.push(Frame { locations: Seq::empty(), functions }),
            heap: self.heap,
        }
    }

    /// The names that the frames bind.
    pub open spec fn dom(self) -> Seq<Seq<char>> {
        frame_names(self.stack)
    }
}

/// Whether `names` holds `name`.
pub fn holds_name(names: &Vec<String>, name: &String) -> (b: bool)
    ensures
        b == views(names@).contains(name@),
{
    let mut i: usize = 0;
    while i < names.len()
        invariant
            i <= names@.len(),
            forall|j: int| 0 <= j < i ==> views(names@)[j] != name@,
        decreases names@.len() - i,
    {
        if names[i] == *name {
            assert(views(names@)[i as int] == name@);
            return true;
        }
        i = i + 1;
    }
    false
}

impl State {
    /// A state of the given stack and store.
    pub fn new(stack: Vec<StackFrame>, heap: Store) -> (r: State)
        ensures
            r@ == (Machine { stack: views(stack@), heap: heap@ }),
    {
        State { stack, heap }
    }

    /// Where the innermost frame keeps `name`.
    pub fn locate(&self, name: String) -> (r: Result<Reference, Failure>)
        ensures
            outcome(r) == self@.locate(name@),
    {
        if self.stack.len() == 0 {
            return Err(Failure::NoFrame);
        }
        match self.stack[self.stack.len() - 1].locations.get(&name) {
            Some(p) => Ok(p.replicate()),
            None => Err(Failure::UnknownVariable(name)),
        }
    }

    /// The names that the frames bind, each once.
    pub fn dom(&self) -> (r: Vec<String>)
        ensures
            views(r@) == self@.dom(),
    {
        let mut out: Vec<String> = Vec::new();
        let mut i: usize = 0;
        assert(views(self.stack@).take(0) =~= Seq::empty());
        assert(views(out@) =~= Seq::empty());
        while i < self.stack.len()
            invariant
                i <= self.stack@.len(),
                views(out@) == frame_names(views(self.stack@).take(i as int)),
            decreases self.stack@.len() - i,
        {
            assert(views(self.stack@).take(i + 1).drop_last() =~= views(self.stack@).take(
                i as int,
            ));
            let frame = &self.stack[i];
            let ghost ks = keys(frame@.locations);
            let ghost acc = views(out@);
            let mut j: usize = 0;
            assert(ks.take(0) =~= Seq::empty());
            while j < frame.locations.len()
                invariant
                    j <= frame.locations@.len(),
                    ks == keys(frame@.locations),
                    views(out@) == add_names(acc, ks.take(j as int)),
                decreases frame.locations@.len() - j,
            {
                assert(ks.take(j + 1).drop_last() =~= ks.take(j as int));
                let k = frame.locations.key_at(j);
                if !holds_name(&out, k) {
                    let ghost before = views(out@);
                    out.push(k.clone());
                    assert(views(out@) =~= before.push(k@));
                }
                j = j + 1;
            }
            assert(ks.take(j as int) =~= ks);
            i = i + 1;
        }
        assert(views(self.stack@).take(i as int) =~= views(self.stack@));
        out
    }

    /// The innermost frame.
    pub fn top(&self) -> (r: &StackFrame)
        requires
            self@.stack.len() > 0,
        ensures
            r@ == self@.top(),
    {
        &self.stack[self.stack.len() - 1]
    }

    /// Makes the function `name` known to the innermost frame.
    pub fn add_function(&mut self, name: String, args: Vec<Argument>, body: Vec<Term>)
        requires
            old(self)@.stack.len() > 0,
        ensures
            final(self)@ == old(self)@.add_function(
                name@,
                Routine { args: views(args@), body: views(body@) },
            ),
            distinct_keys(old(self)@.top().functions) ==> distinct_keys(
                final(self)@.top().functions,
            ),
    {
        proof {
            if distinct_keys(self@.top().functions) {
                lemma_put_distinct(
                    self@.top().functions,
                    name@,
                    Routine { args: views(args@), body: views(body@) },
                );
            }
        }
        let mut frame = self.stack.pop().unwrap();
        frame.functions.insert(name, Definition { args, body });
        self.stack.push(frame);
        assert(views(self.stack@) =~= old(self)@.add_function(
            name@,
            Routine { args: views(args@), body: views(body@) },
        ).stack);
    }
}

/// Makes the function `name` known to the innermost frame of `s`.
pub fn add_function(s: State, name: String, args: Vec<Argument>, body: Vec<Term>) -> (r: State)
    requires
        s@.stack.len() > 0,
    ensures
        r@ == s@.add_function(name@, Routine { args: views(args@), body: views(body@) }),
        distinct_keys(s@.top().functions) ==> distinct_keys(r@.top().functions),
{
    let mut s = s;
    s.add_function(name, args, body);
    s
}

/// The reference to the cell of the place `variable`.
pub fn loc(s: &State, variable: &LVal) -> (r: Result<Reference, Failure>)
    ensures
        outcome(r) == s@.loc(variable@),
    decreases variable,
{
    match variable {
        LVal::Variable { name, .. } => s.locate(name.clone()),
        LVal::Deref { var } => match loc(s, var) {
            Ok(p) => match s.heap.read(p) {
                Ok(Value::Reference(q)) => Ok(q),
                Ok(_) => Err(Failure::NotAPointer(var.get_name())),
                Err(e) => Err(e),
            },
            Err(e) => Err(e),
        },
    }
}

/// The value at the place `variable`.
pub fn read(s: &State, variable: &LVal) -> (r: Result<Value, Failure>)
    ensures
        outcome(r) == s@.read(variable@),
{
    match loc(s, variable) {
        Ok(p) => s.heap.read(p),
        Err(e) => Err(e),
    }
}

/// Puts `value` at the place `variable`.
pub fn write(s: State, variable: &LVal, value: &Value) -> (r: Result<State, Failure>)
    ensures
        outcome(r) == s@.write(variable@, value@),
{
    let mut s = s;
    match loc(&s, variable) {
        Ok(p) => match s.heap.write(p, value.replicate()) {
            Ok(_) => Ok(s),
            Err(e) => Err(e),
        },
        Err(e) => Err(e),
    }
}

/// Puts `value` in a new cell of the lifetime `lifetime`. Where every cell
/// lies below the next address, the cell is new: no cell stood at its
/// address.
pub fn insert(s: State, lifetime: usize, value: &Value) -> (r: (State, Reference))
    requires
        s@.heap.next < usize::MAX,
    ensures
        r.0@ == s@.insert(lifetime, value@),
        r.1@ == s@.heap.fresh(),
        fresh(s@.heap) ==> !bound(s@.heap.cells, r.1.location) && fresh(r.0@.heap),
        distinct_keys(s@.heap.cells) ==> distinct_keys(r.0@.heap.cells),
{
    let mut s = s;
    let r = s.heap.allocate(value.replicate(), lifetime);
    (s, r)
}

/// Keeps `variable` at `reference` in the innermost frame.
pub fn bind(s: State, variable: &String, reference: Reference) -> (r: State)
    requires
        s@.stack.len() > 0,
    ensures
        r@ == s@.bind(variable@, reference@),
        distinct_keys(s@.top().locations) ==> distinct_keys(r@.top().locations),
{
    proof {
        if distinct_keys(s@.top().locations) {
            lemma_put_distinct(s@.top().locations, variable@, reference@);
        }
    }
    let ghost before = s@;
    let mut s = s;
    let mut frame = s.stack.pop().unwrap();
    frame.locations.insert(variable.clone(), reference);
    s.stack.push(frame);
    assert(views(s.stack@) =~= before.bind(variable@, reference@).stack);
    s
}

/// Drops `value` from the store of `s`.
pub fn drop(s: State, value: &Value) -> (r: Result<State, Failure>)
    ensures
        outcome(r) == s@.drop(value@),
{
    let mut s = s;
    match s.heap.drop(value) {
        Ok(_) => Ok(s),
        Err(e) => Err(e),
    }
}

/// Removes the frame at the index `lifetime` and every cell of the lifetime
/// `lifetime`.
pub fn drop_lifetime(s: State, lifetime: usize) -> (r: State)
    requires
        lifetime < s@.stack.len(),
    ensures
        r@ == s@.drop_lifetime(lifetime),
{
    let ghost before = s@;
    let mut s = s;
    s.stack.remove(lifetime);
    s.heap.drop_lifetime(lifetime);
    assert(views(s.stack@) =~= before.drop_lifetime(lifetime).stack);
    s
}

/// How the value `v` reads in a report of the store `h`: a reference is
/// followed, and each hop is written as `ref`, until a value that is no
/// reference is reached. `fuel` bounds the hops; when it runs out the
/// references form a cycle.
pub open spec fn rendering(h: Heap, v: Val, fuel: nat) -> Result<Seq<char>, Fault>
    decreases fuel,
{
    match v {
        Val::Reference(p) => if fuel == 0 {
            Err(Fault::Cyclic(p.location))
        } else {
            match h.read(p.location) {
                Ok(held) => match rendering(h, held, (fuel - 1) as nat) {
                    Ok(s) => Ok("ref "@ + s),
                    Err(e) => Err(e),
                },
                Err(e) => Err(e),
            }
        },
        _ => Ok(v.text()),
    }
}

/// What a report says of the name kept at `p`: the rendering of the value
/// of its cell. A chain of references longer than the number of cells is a
/// cycle.
pub open spec fn name_report(h: Heap, p: Pointer) -> Result<Seq<char>, Fault> {
    match h.read(p.location) {
        Ok(v) => rendering(h, v, h.cells.len()),
        Err(e) => Err(e),
    }
}

/// `acc` with the reports of the first `n` names of `locations`, in order:
/// a name that `acc` reports already gets the new report.
pub open spec fn frame_report(
    h: Heap,
    locations: Seq<(Seq<char>, Pointer)>,
    n: nat,
    acc: Seq<(Seq<char>, Seq<char>)>,
) -> Result<Seq<(Seq<char>, Seq<char>)>, Fault>
    decreases n,
{
    if n == 0 {
        Ok(acc)
    } else {
        match frame_report(h, locations, (n - 1) as nat, acc) {
            Err(e) => Err(e),
            Ok(sofar) => match name_report(h, locations[n - 1].1) {
                Err(e) => Err(e),
                Ok(s) => Ok(put(sofar, locations[n - 1].0, s)),
            },
        }
    }
}

/// The reports of the names of the first `k` frames, outermost first.
pub open spec fn stack_report(h: Heap, stack: Seq<Frame>, k: nat) -> Result<
    Seq<(Seq<char>, Seq<char>)>,
    Fault,
>
    decreases k,
{
    if k == 0 {
        Ok(Seq::empty())
    } else {
        match stack_report(h, stack, (k - 1) as nat) {
            Err(e) => Err(e),
            Ok(sofar) => frame_report(
                h,
                stack[k - 1].locations,
                stack[k - 1].locations.len(),
                sofar,
            ),
        }
    }
}

/// Once the report of a frame has failed, going on changes nothing.
pub proof fn lemma_frame_report_fails(
    h: Heap,
    locations: Seq<(Seq<char>, Pointer)>,
    n: nat,
    k: nat,
    acc: Seq<(Seq<char>, Seq<char>)>,
)
    requires
        n <= k,
        frame_report(h, locations, n, acc) is Err,
    ensures
        frame_report(h, locations, k, acc) == frame_report(h, locations, n, acc),
    decreases k - n,
{
    if n < k {
        lemma_frame_report_fails(h, locations, n, (k - 1) as nat, acc);
    }
}

/// Once the report of the stack has failed, going on changes nothing.
pub proof fn lemma_stack_report_fails(h: Heap, stack: Seq<Frame>, n: nat, k: nat)
    requires
        n <= k,
        stack_report(h, stack, n) is Err,
    ensures
        stack_report(h, stack, k) == stack_report(h, stack, n),
    decreases k - n,
{
    if n < k {
        lemma_stack_report_fails(h, stack, n, (k - 1) as nat);
    }
}

impl Store {
    /// How `value` reads in a report, following at most `fuel` references.
    pub fn render(&self, value: &Value, fuel: usize) -> (r: Result<String, Failure>)
        ensures
            outcome(r) == rendering(self@, value@, fuel as nat),
        decreases fuel,
    {
        match value {
            Value::Reference(p) => {
                if fuel == 0 {
                    Err(Failure::Cyclic(p.location))
                } else {
                    match self.read(p.replicate()) {
                        Ok(held) => match self.render(&held, fuel - 1) {
                            Ok(s) => {
                                let mut out = String::from_str("ref ");
                                out.append(s.as_str());
                                Ok(out)
                            },
                            Err(e) => Err(e),
                        },
                        Err(e) => Err(e),
                    }
                }
            },
            _ => Ok(value.to_string()),
        }
    }
}

impl State {
    /// The innermost frame, to change it.
    pub fn top_mut(&mut self) -> (r: &mut StackFrame)
        requires
            old(self).stack@.len() > 0,
        ensures
            *r == old(self).stack@.last(),
            final(self).stack@ == old(self).stack@.update(
                old(self).stack@.len() - 1,
                *final(r),
            ),
            final(self).heap == old(self).heap,
    {
        let n = self.stack.len();
        &mut self.stack[n - 1]
    }

    /// The report of the final state: for each name that a frame keeps, the
    /// rendering of its value.
    pub fn output(&self) -> (r: Result<Table<String, String>, Failure>)
        ensures
            outcome(r) == stack_report(self@.heap, self@.stack, self@.stack.len()),
    {
        let mut out: Table<String, String> = Table::new();
        let mut i: usize = 0;
        while i < self.stack.len()
            invariant
                i <= self.stack@.len(),
                stack_report(self@.heap, self@.stack, i as nat) == Ok::<
                    Seq<(Seq<char>, Seq<char>)>,
                    Fault,
                >(out@),
            decreases self.stack@.len() - i,
        {
            let frame = &self.stack[i];
            let ghost acc = out@;
            let mut j: usize = 0;
            while j < frame.locations.len()
                invariant
                    i < self.stack@.len(),
                    frame@ == self@.stack[i as int],
                    j <= frame.locations@.len(),
                    stack_report(self@.heap, self@.stack, i as nat) == Ok::<
                        Seq<(Seq<char>, Seq<char>)>,
                        Fault,
                    >(acc),
                    frame_report(self@.heap, frame@.locations, j as nat, acc) == Ok::<
                        Seq<(Seq<char>, Seq<char>)>,
                        Fault,
                    >(out@),
                decreases frame.locations@.len() - j,
            {
                let p = frame.locations.value_at(j);
                let text = match self.heap.read(p.replicate()) {
                    Ok(v) => self.heap.render(&v, self.heap.cells.len()),
                    Err(e) => Err(e),
                };
                match text {
                    Ok(s) => {
                        out.insert(frame.locations.key_at(j).clone(), s);
                    },
                    Err(e) => {
                        proof {
                            lemma_frame_report_fails(
                                self@.heap,
                                frame@.locations,
                                (j + 1) as nat,
                                frame@.locations.len(),
                                acc,
                            );
                            lemma_stack_report_fails(
                                self@.heap,
                                self@.stack,
                                (i + 1) as nat,
                                self@.stack.len(),
                            );
                        }
                        return Err(e);
                    },
                }
                j = j + 1;
            }
            i = i + 1;
        }
        Ok(out)
    }
}

} // verus!
