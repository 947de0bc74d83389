//! Types, the type environment, and the rules on moves and borrows.
use crate::ast::{views, LVal, Place};
use crate::constants::{outcome, verdict, Failure, Fault, TypeError, TypeFault};
use crate::table::{
    bound, distinct_keys, find, lemma_find, lemma_find_distinct, lookup, put, Replicate, Table,
};
use vstd::prelude::*;

verus! {

/// What a name or an address is bound to, with the lifetime of the binding.
#[derive(Debug, Clone)]
pub struct Slot<T> {
    pub value: T,
    pub lifetime: usize,
}

impl<T: View> View for Slot<T> {
    type V = Slot<T::V>;

    open spec fn view(&self) -> Slot<T::V> {
        Slot { value: self.value@, lifetime: self.lifetime }
    }
}

impl<T: Replicate> Replicate for Slot<T> {
    fn replicate(&self) -> (r: Slot<T>) {
        Slot { value: self.value.replicate(), lifetime: self.lifetime }
    }
}

/// A type of the language.
#[derive(Debug, PartialEq)]
pub enum Type {
    Epsilon,
    Numeric,
    Reference { var: LVal, mutable: bool },
    Box(Box<Type>),
    Undefined(Box<Type>),
    Function { args: Vec<Type>, ret: Option<Box<Type>> },
}

/// The model of a `Type`. A reference type names the place it borrows
/// without the type checker's annotation.
pub enum Ty {
    Epsilon,
    Numeric,
    Reference { var: Place, mutable: bool },
    Box(Box<Ty>),
    Undefined(Box<Ty>),
    Function { args: Seq<Ty>, ret: Option<Box<Ty>> },
}

impl Type {
    /// The model of the type: the same tree, with each borrowed place
    /// without its annotation.
    pub open spec fn model(&self) -> Ty
        decreases self,
    {
        match self {
            Type::Epsilon => Ty::Epsilon,
            Type::Numeric => Ty::Numeric,
            Type::Reference { var, mutable } => Ty::Reference {
                var: var@.erased(),
                mutable: *mutable,
            },
            Type::Box(t) => Ty::Box(Box::new(t.model())),
            Type::Undefined(t) => Ty::Undefined(Box::new(t.model())),
            Type::Function { args, ret } => Ty::Function {
                args: Seq::new(
                    args@.len(),
                    |i: int|
                        if 0 <= i < args@.len() {
                            args@[i].model()
                        } else {
                            Ty::Epsilon
                        },
                ),
                ret: match ret {
                    Some(t) => Some(Box::new(t.model())),
                    None => None,
                },
            },
        }
    }

    /// The model of a function type in terms of the models of its parts.
    pub proof fn lemma_model(&self)
        ensures
            match self {
                Type::Function { args, ret } => self@ == (Ty::Function {
                    args: views(args@),
                    ret: match ret {
                        Some(t) => Some(Box::new((*t)@)),
                        None => None,
                    },
                }),
                _ => true,
            },
    {
        match self {
            Type::Function { args, ret } => {
                assert(self@->Function_args =~= views(args@));
            },
            _ => {},
        }
    }
}

impl View for Type {
    type V = Ty;

    open spec fn view(&self) -> Ty {
        self.model()
    }
}

/// Whether two sequences of types have the same models.
pub fn same_types(a: &Vec<Type>, b: &Vec<Type>) -> (r: bool)
    ensures
        r == (views(a@) == views(b@)),
    decreases a,
{
    if a.len() != b.len() {
        assert(views(a@).len() == a@.len());
        assert(views(b@).len() == b@.len());
        return false;
    }
    let mut i: usize = 0;
    while i < a.len()
        invariant
            i <= a@.len(),
            a@.len() == b@.len(),
            forall|j: int| 0 <= j < i ==> (#[trigger] a@[j])@ == b@[j]@,
        decreases a@.len() - i,
    {
        if !a[i].same(&b[i]) {
            assert(views(a@)[i as int] != views(b@)[i as int]);
            return false;
        }
        i = i + 1;
    }
    assert(views(a@) =~= views(b@));
    true
}

/// A copy of a sequence of types.
pub fn replicate_types(types: &Vec<Type>) -> (r: Vec<Type>)
    ensures
        views(r@) == views(types@),
    decreases types,
{
    let mut out: Vec<Type> = Vec::new();
    let mut i: usize = 0;
    while i < types.len()
        invariant
            i <= types@.len(),
            out@.len() == i,
            forall|j: int| 0 <= j < i ==> (#[trigger] out@[j])@ == types@[j]@,
        decreases types@.len() - i,
    {
        out.push(types[i].replicate());
        i = i + 1;
    }
    assert(views(out@) =~= views(types@));
    out
}

impl Replicate for Type {
    fn replicate(&self) -> (r: Type)
        decreases self,
    {
        proof {
            self.lemma_model();
        }
        let r = match self {
            Type::Epsilon => Type::Epsilon,
            Type::Numeric => Type::Numeric,
            Type::Reference { var, mutable } => Type::Reference {
                var: var.replicate(),
                mutable: *mutable,
            },
            Type::Box(t) => Type::Box(Box::new(t.replicate())),
            Type::Undefined(t) => Type::Undefined(Box::new(t.replicate())),
            Type::Function { args, ret } => Type::Function {
                args: replicate_types(args),
                ret: match ret {
                    Some(t) => Some(Box::new(t.replicate())),
                    None => None,
                },
            },
        };
        proof {
            r.lemma_model();
        }
        r
    }
}

impl Clone for Type {
    fn clone(&self) -> (r: Type)
        ensures
            r@ == self@,
    {
        self.replicate()
    }
}

/// The model of a type environment: its bindings, in the order in which the
/// names were first bound.
pub type Gamma = Seq<(Seq<char>, Slot<Ty>)>;

impl Ty {
    /// Whether a read of a value of the type copies it. Boxes and mutable
    /// references are moved.
    pub open spec fn copyable(self) -> bool {
        match self {
            Ty::Reference { mutable, .. } => !mutable,
            Ty::Box(_) => false,
            _ => true,
        }
    }

    /// Whether the type is `u`, or a box around a type that contains `u`.
    pub open spec fn contains(self, u: Ty) -> bool
        decreases self,
    {
        self == u || match self {
            Ty::Box(t) => t.contains(u),
            _ => false,
        }
    }

    /// Whether a value of the type `other` may be assigned to a place of the
    /// type. Which place a reference borrows is not compared.
    pub open spec fn shape_compatible(self, other: Ty) -> bool
        decreases self, other,
    {
        match (self, other) {
            (Ty::Numeric, Ty::Numeric) => true,
            (Ty::Box(a), Ty::Box(b)) => a.shape_compatible(*b),
            (Ty::Reference { mutable: m1, .. }, Ty::Reference { mutable: m2, .. }) => m1 == m2,
            (Ty::Undefined(a), _) => a.shape_compatible(other),
            (_, Ty::Undefined(b)) => self.shape_compatible(*b),
            _ => false,
        }
    }

    /// Whether every place that the type borrows was bound at a lifetime of
    /// at most `l`. Fails where a borrowed name is unbound or moved.
    pub open spec fn within(self, g: Gamma, l: usize) -> Result<bool, Fault>
        decreases self,
    {
        match self {
            Ty::Reference { var, .. } => match slot_of(g, var.name()) {
                Ok(s) => Ok(s.lifetime <= l),
                Err(e) => Err(e),
            },
            Ty::Box(t) => t.within(g, l),
            _ => Ok(true),
        }
    }

    /// Whether the place `lv`, starting at a name of this type, stays inside
    /// boxes.
    pub open spec fn can_undefine(self, lv: Place) -> bool
        decreases lv,
    {
        match lv {
            Place::Variable { .. } => true,
            Place::Deref { var } => match self {
                Ty::Box(t) => t.can_undefine(*var),
                _ => false,
            },
        }
    }

    /// The type of a name after the value at `lv` has been moved out: the
    /// boxes on the way stay, and what they held is undefined.
    pub open spec fn undefine(self, lv: Place) -> Ty
        decreases lv,
    {
        match lv {
            Place::Variable { .. } => Ty::Undefined(Box::new(self)),
            Place::Deref { var } => match self {
                Ty::Box(t) => Ty::Box(Box::new(t.undefine(*var))),
                _ => self,
            },
        }
    }
}

/// The slot of `x`, as it stands.
pub open spec fn partial_slot(g: Gamma, x: Seq<char>) -> Result<Slot<Ty>, Fault> {
    match lookup(g, x) {
        Some(s) => Ok(s),
        None => Err(Fault::Unbound(x)),
    }
}

/// The slot, unless its value was moved out, directly or from inside a box.
pub open spec fn atomic_slot(s: Slot<Ty>) -> Result<Slot<Ty>, Fault> {
    match s.value {
        Ty::Undefined(t) => Err(Fault::Type(TypeFault::TypeMoved(*t))),
        Ty::Box(t) => match *t {
            Ty::Undefined(nt) => Err(Fault::Type(TypeFault::TypeMoved(*nt))),
            _ => Ok(s),
        },
        _ => Ok(s),
    }
}

/// The slot of `x`, which must hold a value.
pub open spec fn slot_of(g: Gamma, x: Seq<char>) -> Result<Slot<Ty>, Fault> {
    match partial_slot(g, x) {
        Ok(s) => atomic_slot(s),
        Err(e) => Err(e),
    }
}

/// Every bound name, in order.
pub open spec fn names(g: Gamma) -> Seq<Seq<char>>
    decreases g.len(),
{
    if g.len() == 0 {
        Seq::empty()
    } else {
        names(g.drop_last()).push(g.last().0)
    }
}

/// The names that are bound to something other than a function, in order.
pub open spec fn domain(g: Gamma) -> Seq<Seq<char>>
    decreases g.len(),
{
    if g.len() == 0 {
        Seq::empty()
    } else if g.last().1.value is Function {
        domain(g.drop_last())
    } else {
        domain(g.drop_last()).push(g.last().0)
    }
}

/// Whether `x` is bound to something other than a function.
pub open spec fn declared(g: Gamma, x: Seq<char>) -> bool {
    match lookup(g, x) {
        Some(s) => !(s.value is Function),
        None => false,
    }
}

/// The variable that `lv` starts from. A variable is its own root; the root
/// of a dereference is that of the dereferenced place, once the name that
/// the place starts from is known to be bound.
pub open spec fn root_of(g: Gamma, lv: Place) -> Result<Place, Fault>
    decreases lv,
{
    match lv {
        Place::Variable { .. } => Ok(lv),
        Place::Deref { var } => if bound(g, var.name()) {
            root_of(g, *var)
        } else {
            Err(Fault::Unbound(var.name()))
        },
    }
}

/// Whether some binding holds a borrow of the variable `x`, mutable or
/// shared as `mutable` says.
pub open spec fn borrowed(g: Gamma, x: Seq<char>, mutable: bool) -> bool {
    exists|i: int|
        0 <= i < g.len() && (#[trigger] g[i]).1.value.contains(
            Ty::Reference { var: Place::variable(x), mutable },
        )
}

/// Whether a write to `lv`, or a move out of it, is forbidden: some binding
/// borrows the variable it starts from.
pub open spec fn write_blocked(g: Gamma, lv: Place) -> bool {
    borrowed(g, lv.name(), false) || borrowed(g, lv.name(), true)
}

/// Whether a read of `lv` is forbidden: some binding borrows the variable it
/// starts from mutably.
pub open spec fn read_blocked(g: Gamma, lv: Place) -> bool {
    borrowed(g, lv.name(), true)
}

/// The environment after the value at `lv` has been moved out. The binding
/// keeps its lifetime.
pub open spec fn moved(g: Gamma, lv: Place) -> Result<Gamma, Fault> {
    match partial_slot(g, lv.name()) {
        Ok(s) => if s.value.can_undefine(lv) {
            Ok(put(g, lv.name(), Slot { value: s.value.undefine(lv), lifetime: s.lifetime }))
        } else {
            Err(Fault::Shape(lv.name()))
        },
        Err(e) => Err(e),
    }
}

/// The type of the place `lv`.
pub open spec fn place_type(g: Gamma, lv: Place) -> Result<Ty, Fault>
    decreases lv,
{
    match lv {
        Place::Variable { name, .. } => match slot_of(g, name) {
            Ok(s) => Ok(s.value),
            Err(e) => Err(e),
        },
        Place::Deref { var } => match place_type(g, *var) {
            Ok(Ty::Reference { var: v, .. }) => match slot_of(g, v.name()) {
                Ok(s) => Ok(s.value),
                Err(e) => Err(e),
            },
            Ok(Ty::Box(t)) => Ok(*t),
            Ok(_) => Err(Fault::NotAReference(var.name())),
            Err(e) => Err(e),
        },
    }
}

/// Whether `lv` denotes a place that may be borrowed mutably. A variable
/// that holds a shared reference may not. What a box holds may if the box
/// may, and what a mutable reference borrows may if the borrowed place may;
/// every other place may. `fuel` bounds the number of mutable references
/// that are followed; when it runs out the borrows form a cycle.
pub open spec fn mutable_place(g: Gamma, lv: Place, fuel: nat) -> Result<bool, Fault>
    decreases fuel, lv,
{
    match lv {
        Place::Variable { name, .. } => match slot_of(g, name) {
            Ok(s) => Ok(!(s.value matches Ty::Reference { mutable, .. } && !mutable)),
            Err(e) => Err(e),
        },
        Place::Deref { var } => match place_type(g, *var) {
            Ok(Ty::Box(_)) => mutable_place(g, *var, fuel),
            Ok(Ty::Reference { var: r, mutable: true }) => if fuel == 0 {
                Err(Fault::BorrowCycle(r.name()))
            } else {
                mutable_place(g, r, (fuel - 1) as nat)
            },
            Ok(_) => Ok(true),
            Err(e) => Err(e),
        },
    }
}

/// The environment after a value of type `t` has been written to `lv`.
pub open spec fn written(g: Gamma, lv: Place, t: Ty, fuel: nat) -> Result<Gamma, Fault>
    decreases fuel, lv, 1nat,
{
    match slot_of(g, lv.name()) {
        Ok(s) => match updated(g, lv, s.value, t, fuel) {
            Ok((g2, t3)) => Ok(put(g2, lv.name(), Slot { value: t3, lifetime: s.lifetime })),
            Err(e) => Err(e),
        },
        Err(e) => Err(e),
    }
}

/// The descent of a write: `cur` is the type that stands where `lv` starts.
/// Inside a box the write goes on in what the box holds; through a mutable
/// reference it goes on at the borrowed place; through a shared reference it
/// is refused. Gives the environment and the type that replaces `cur`.
pub open spec fn updated(
    g: Gamma,
    lv: Place,
    cur: Ty,
    t: Ty,
    fuel: nat,
) -> Result<(Gamma, Ty), Fault>
    decreases fuel, lv, 0nat,
{
    match lv {
        Place::Variable { .. } => Ok((g, t)),
        Place::Deref { var } => match cur {
            Ty::Box(inner) => match updated(g, *var, *inner, t, fuel) {
                Ok((g2, t3)) => Ok((g2, Ty::Box(Box::new(t3)))),
                Err(e) => Err(e),
            },
            Ty::Reference { var: r, mutable } => if !mutable {
                Err(Fault::SharedTarget(r.name()))
            } else if fuel == 0 {
                Err(Fault::BorrowCycle(r.name()))
            } else {
                match written(g, r, t, (fuel - 1) as nat) {
                    Ok(g3) => Ok((g3, cur)),
                    Err(e) => Err(e),
                }
            },
            _ => Err(Fault::Shape(lv.name())),
        },
    }
}

/// The type environment: what each name is bound to.
#[derive(Debug)]
pub struct TypeEnviroment {
    pub gamma: Table<String, Slot<Type>>,
}

impl View for TypeEnviroment {
    type V = Gamma;

    open spec fn view(&self) -> Gamma {
        self.gamma@
    }
}

impl Replicate for TypeEnviroment {
    fn replicate(&self) -> (r: TypeEnviroment) {
        TypeEnviroment { gamma: self.gamma.replicate() }
    }
}

impl Clone for TypeEnviroment {
    fn clone(&self) -> (r: TypeEnviroment)
        ensures
            r@ == self@,
    {
        self.replicate()
    }
}

impl Type {
    /// Whether a read of a value of the type copies it.
    pub fn copyable(&self) -> (b: bool)
        ensures
            b == self@.copyable(),
    {
        match self {
            Type::Reference { mutable, .. } => !*mutable,
            Type::Box(_) => false,
            _ => true,
        }
    }

    /// Whether two types have the same model.
    pub fn same(&self, other: &Type) -> (b: bool)
        ensures
            b == (self@ == other@),
        decreases self,
    {
        proof {
            self.lemma_model();
            other.lemma_model();
        }
        match (self, other) {
            (Type::Epsilon, Type::Epsilon) => true,
            (Type::Numeric, Type::Numeric) => true,
            (Type::Reference { var: a, mutable: m1 }, Type::Reference { var: b, mutable: m2 }) => {
                *m1 == *m2 && a.same_place(b)
            },
            (Type::Box(a), Type::Box(b)) => a.same(b),
            (Type::Undefined(a), Type::Undefined(b)) => a.same(b),
            (Type::Function { args: a, ret: r1 }, Type::Function { args: b, ret: r2 }) => {
                let rets = match (r1, r2) {
                    (Some(x), Some(y)) => x.same(y),
                    (None, None) => true,
                    _ => false,
                };
                rets && same_types(a, b)
            },
            _ => false,
        }
    }

    /// Whether every place that the type borrows was bound at a lifetime of
    /// at most `lifetime`, or the failure to find such a place.
    pub fn within_checked(
        &self,
        gamma: &TypeEnviroment,
        lifetime: usize,
    ) -> (r: Result<bool, Failure>)
        ensures
            verdict(r) == self@.within(gamma@, lifetime),
        decreases self,
    {
        match self {
            Type::Reference { var, .. } => {
                let name = var.get_name();
                proof {
                    lemma_erased_name(var@);
                }
                match gamma.get(&name) {
                    Ok(s) => Ok(s.lifetime <= lifetime),
                    Err(e) => Err(e),
                }
            },
            Type::Box(t) => t.within_checked(gamma, lifetime),
            _ => Ok(true),
        }
    }

    /// Whether every place that the type borrows was bound at a lifetime of
    /// at most `lifetime`.
    pub fn within(&self, gamma: &TypeEnviroment, lifetime: usize) -> (b: bool)
        requires
            self@.within(gamma@, lifetime) is Ok,
        ensures
            self@.within(gamma@, lifetime) matches Ok(v) && v == b,
    {
        match self.within_checked(gamma, lifetime) {
            Ok(b) => b,
            Err(_) => false,
        }
    }

    /// Whether the place `lv`, starting at a name of this type, stays inside
    /// boxes.
    pub fn can_undefine(&self, lv: &LVal) -> (b: bool)
        ensures
            b == self@.can_undefine(lv@),
        decreases lv,
    {
        match lv {
            LVal::Variable { .. } => true,
            LVal::Deref { var } => match self {
                Type::Box(t) => t.can_undefine(var),
                _ => false,
            },
        }
    }
}

/// Erasing the annotation of a place keeps its name.
pub proof fn lemma_erased_name(lv: Place)
    ensures
        lv.erased().name() == lv.name(),
        lv.erased().erased() == lv.erased(),
        lv.erased().depth() == lv.depth(),
    decreases lv,
{
    match lv {
        Place::Variable { .. } => {},
        Place::Deref { var } => {
            lemma_erased_name(*var);
        },
    }
}

impl TypeEnviroment {
    /// The empty environment.
    pub fn new() -> (r: TypeEnviroment)
        ensures
            r@ == Seq::<(Seq<char>, Slot<Ty>)>::empty(),
            distinct_keys(r@),
    {
        TypeEnviroment { gamma: Table::new() }
    }

    /// The slot of `key`, as it stands: its type may be undefined.
    pub fn get_partial(&self, key: &String) -> (r: Result<Slot<Type>, Failure>)
        ensures
            outcome(r) == partial_slot(self@, key@),
    {
        match self.gamma.get(key) {
            Some(s) => Ok(s.replicate()),
            None => Err(Failure::Unbound(key.clone())),
        }
    }

    /// The slot, unless its value was moved out.
    pub fn get_atomic(&self, partial: Slot<Type>) -> (r: Result<Slot<Type>, Failure>)
        ensures
            outcome(r) == atomic_slot(partial@),
    {
        proof {
            reveal_with_fuel(Type::model, 2);
        }
        let gone: Option<Type> = match &partial.value {
            Type::Undefined(t) => Some(t.replicate()),
            Type::Box(t) => match &**t {
                Type::Undefined(nt) => Some(nt.replicate()),
                _ => None,
            },
            _ => None,
        };
        match gone {
            Some(t) => Err(Failure::Type(TypeError::TypeMoved(t))),
            None => Ok(partial),
        }
    }

    /// The slot of `key`, which must hold a value.
    pub fn get(&self, key: &String) -> (r: Result<Slot<Type>, Failure>)
        ensures
            outcome(r) == slot_of(self@, key@),
    {
        match self.get_partial(key) {
            Ok(s) => self.get_atomic(s),
            Err(e) => Err(e),
        }
    }

    /// Binds `key` to `value` at `lifetime`, replacing an earlier binding.
    pub fn insert(&mut self, key: String, value: Type, lifetime: usize)
        ensures
            final(self)@ == put(old(self)@, key@, Slot { value: value@, lifetime }),
            distinct_keys(old(self)@) ==> distinct_keys(final(self)@),
    {
        self.gamma.insert(key, Slot { value, lifetime });
    }

    /// The names that are bound to something other than a function, in the
    /// order in which they were first bound. Where no name is bound twice,
    /// none is listed twice.
    pub fn dom(&self) -> (r: Vec<String>)
        ensures
            views(r@) == domain(self@),
            distinct_keys(self@) ==> views(r@).no_duplicates(),
    {
        proof {
            if distinct_keys(self@) {
                lemma_domain_distinct(self@);
            }
        }
        let mut out: Vec<String> = Vec::new();
        let mut i: usize = 0;
        assert(self@.take(0) =~= Seq::empty());
        while i < self.gamma.len()
            invariant
                i <= self@.len(),
                views(out@) == domain(self@.take(i as int)),
            decreases self@.len() - i,
        {
            assert(self@.take(i + 1).drop_last() =~= self@.take(i as int));
            let function = match &self.gamma.value_at(i).value {
                Type::Function { .. } => true,
                _ => false,
            };
            if !function {
                let ghost before = out@;
                out.push(self.gamma.key_at(i).clone());
                assert(views(out@) =~= views(before).push(self@[i as int].0));
            }
            i = i + 1;
        }
        assert(self@.take(i as int) =~= self@);
        out
    }

    /// Whether `key` is bound at all.
    pub fn contains_key(&self, key: &String) -> (b: bool)
        ensures
            b == bound(self@, key@),
    {
        self.gamma.contains_key(key)
    }

    /// Whether `key` is bound to something other than a function.
    pub fn declares(&self, key: &String) -> (b: bool)
        ensures
            b == declared(self@, key@),
    {
        match self.gamma.get(key) {
            Some(s) => match &s.value {
                Type::Function { .. } => false,
                _ => true,
            },
            None => false,
        }
    }
}

/// Every bound name, in order.
pub fn dom(gamma: &TypeEnviroment) -> (r: Vec<String>)
    ensures
        views(r@) == names(gamma@),
{
    let mut out: Vec<String> = Vec::new();
    let mut i: usize = 0;
    assert(gamma@.take(0) =~= Seq::empty());
    while i < gamma.gamma.len()
        invariant
            i <= gamma@.len(),
            views(out@) == names(gamma@.take(i as int)),
        decreases gamma@.len() - i,
    {
        assert(gamma@.take(i + 1).drop_last() =~= gamma@.take(i as int));
        let ghost before = out@;
        out.push(gamma.gamma.key_at(i).clone());
        assert(views(out@) =~= views(before).push(gamma@[i as int].0));
        i = i + 1;
    }
    assert(gamma@.take(i as int) =~= gamma@);
    out
}

/// The variable that `lval` starts from. Fails on a dereference that starts
/// from an unbound name.
pub fn root(gamma: &TypeEnviroment, lval: LVal) -> (r: Result<LVal, Failure>)
    ensures
        outcome(r) == root_of(gamma@, lval@),
    decreases lval,
{
    match lval {
        LVal::Variable { name, copyable } => Ok(LVal::Variable { name, copyable }),
        LVal::Deref { var } => {
            let name = var.get_name();
            if gamma.contains_key(&name) {
                root(gamma, *var)
            } else {
                Err(Failure::Unbound(name))
            }
        },
    }
}

/// Whether `t` is `t2`, or a box around a type that contains `t2`.
pub fn contains(t: Type, t2: Type) -> (b: bool)
    ensures
        b == t@.contains(t2@),
{
    holds(&t, &t2)
}

/// `contains`, on borrowed types.
pub fn holds(t: &Type, t2: &Type) -> (b: bool)
    ensures
        b == t@.contains(t2@),
    decreases t,
{
    if t.same(t2) {
        true
    } else {
        match t {
            Type::Box(inner) => holds(inner, t2),
            _ => false,
        }
    }
}

/// Whether some binding holds a borrow of the variable `name`.
pub fn is_borrowed(gamma: &TypeEnviroment, name: &String, mutable: bool) -> (b: bool)
    ensures
        b == borrowed(gamma@, name@, mutable),
{
    let probe = Type::Reference {
        var: LVal::Variable { name: name.clone(), copyable: None },
        mutable,
    };
    let mut i: usize = 0;
    while i < gamma.gamma.len()
        invariant
            i <= gamma@.len(),
            probe@ == (Ty::Reference { var: Place::variable(name@), mutable }),
            forall|j: int| 0 <= j < i ==> !(#[trigger] gamma@[j]).1.value.contains(probe@),
        decreases gamma@.len() - i,
    {
        if holds(&gamma.gamma.value_at(i).value, &probe) {
            return true;
        }
        i = i + 1;
    }
    false
}

/// Whether a write to `variable`, or a move out of it, is forbidden.
pub fn write_prohibited(gamma: &TypeEnviroment, variable: LVal) -> (b: bool)
    requires
        root_of(gamma@, variable@) is Ok,
    ensures
        b == write_blocked(gamma@, variable@),
{
    let name = variable.get_name();
    is_borrowed(gamma, &name, false) || is_borrowed(gamma, &name, true)
}

/// Whether a read of `variable` is forbidden.
pub fn read_prohibited(gamma: &TypeEnviroment, variable: LVal) -> (b: bool)
    requires
        root_of(gamma@, variable@) is Ok,
    ensures
        b == read_blocked(gamma@, variable@),
{
    let name = variable.get_name();
    is_borrowed(gamma, &name, true)
}

/// The type of a name after the value at `lval` has been moved out.
pub fn undefine(lval: LVal, t: Type) -> (r: Type)
    requires
        t@.can_undefine(lval@),
    ensures
        r@ == t@.undefine(lval@),
    decreases lval,
{
    match lval {
        LVal::Variable { .. } => Type::Undefined(Box::new(t)),
        LVal::Deref { var } => match t {
            Type::Box(inner) => Type::Box(Box::new(undefine(*var, *inner))),
            other => other,
        },
    }
}

/// Marks the value at `variable` as moved out. The binding keeps its
/// lifetime, whatever the lifetime of the move.
pub fn move_var(
    gamma: TypeEnviroment,
    variable: LVal,
    lifetime: usize,
) -> (r: Result<TypeEnviroment, Failure>)
    ensures
        outcome(r) == moved(gamma@, variable@),
{
    let mut gamma = gamma;
    let name = variable.get_name();
    match gamma.get_partial(&name) {
        Ok(s) => {
            if s.value.can_undefine(&variable) {
                let t = undefine(variable, s.value);
                gamma.insert(name, t, s.lifetime);
                Ok(gamma)
            } else {
                Err(Failure::Shape(name))
            }
        },
        Err(e) => Err(e),
    }
}

/// Whether a value of type `t2` may be assigned to a place of type `t1`.
pub fn shape_compatible(gamma: &TypeEnviroment, t1: &Type, t2: &Type) -> (b: bool)
    ensures
        b == t1@.shape_compatible(t2@),
    decreases t1, t2,
{
    match (t1, t2) {
        (Type::Numeric, Type::Numeric) => true,
        (Type::Box(a), Type::Box(b)) => shape_compatible(gamma, a, b),
        (Type::Reference { mutable: m1, .. }, Type::Reference { mutable: m2, .. }) => *m1 == *m2,
        (Type::Undefined(a), _) => shape_compatible(gamma, a, t2),
        (_, Type::Undefined(b)) => shape_compatible(gamma, t1, b),
        _ => false,
    }
}

/// The type of the place `lv`.
pub fn type_of(gamma: &TypeEnviroment, lv: &LVal) -> (r: Result<Type, Failure>)
    ensures
        outcome(r) == place_type(gamma@, lv@),
    decreases lv,
{
    match lv {
        LVal::Variable { name, .. } => match gamma.get(name) {
            Ok(s) => Ok(s.value),
            Err(e) => Err(e),
        },
        LVal::Deref { var } => match type_of(gamma, var) {
            Ok(Type::Reference { var: v, .. }) => {
                proof {
                    lemma_erased_name(v@);
                }
                match gamma.get(&v.get_name()) {
                    Ok(s) => Ok(s.value),
                    Err(e) => Err(e),
                }
            },
            Ok(Type::Box(t)) => Ok(*t),
            Ok(_) => Err(Failure::NotAReference(var.get_name())),
            Err(e) => Err(e),
        },
    }
}

/// Whether `lv` may be borrowed mutably, following at most `fuel` mutable
/// references.
pub fn mutable_within(gamma: &TypeEnviroment, lv: &LVal, fuel: usize) -> (r: Result<bool, Failure>)
    ensures
        verdict(r) == mutable_place(gamma@, lv@, fuel as nat),
    decreases fuel, lv,
{
    match lv {
        LVal::Variable { name, .. } => match gamma.get(name) {
            Ok(s) => match s.value {
                Type::Reference { mutable: false, .. } => Ok(false),
                _ => Ok(true),
            },
            Err(e) => Err(e),
        },
        LVal::Deref { var } => match type_of(gamma, var) {
            Ok(Type::Box(_)) => mutable_within(gamma, var, fuel),
            Ok(Type::Reference { var: r, mutable: true }) => {
                proof {
                    lemma_erased_name(r@);
                }
                if fuel == 0 {
                    Err(Failure::BorrowCycle(r.get_name()))
                } else {
                    proof {
                        lemma_mutable_erased(gamma@, r@, (fuel - 1) as nat);
                    }
                    mutable_within(gamma, &r, fuel - 1)
                }
            },
            Ok(_) => Ok(true),
            Err(e) => Err(e),
        },
    }
}

/// Whether `variable` may be borrowed mutably, or the failure to decide it.
/// A chain of mutable references longer than the number of bindings is a
/// cycle.
pub fn mutable_checked(gamma: &TypeEnviroment, variable: &LVal) -> (r: Result<bool, Failure>)
    ensures
        verdict(r) == mutable_place(gamma@, variable@, gamma@.len()),
{
    mutable_within(gamma, variable, gamma.gamma.len())
}

/// Whether `variable` may be borrowed mutably.
pub fn _mut(gamma: &TypeEnviroment, variable: LVal) -> (b: bool)
    requires
        mutable_place(gamma@, variable@, gamma@.len()) is Ok,
    ensures
        mutable_place(gamma@, variable@, gamma@.len()) matches Ok(v) && v == b,
{
    match mutable_checked(gamma, &variable) {
        Ok(b) => b,
        Err(_) => false,
    }
}

/// The type of a place does not depend on its annotation.
pub proof fn lemma_place_type_erased(g: Gamma, lv: Place)
    ensures
        place_type(g, lv.erased()) == place_type(g, lv),
    decreases lv,
{
    lemma_erased_name(lv);
    match lv {
        Place::Variable { .. } => {},
        Place::Deref { var } => {
            lemma_place_type_erased(g, *var);
            lemma_erased_name(*var);
        },
    }
}

/// Whether a place is mutable does not depend on its annotation.
pub proof fn lemma_mutable_erased(g: Gamma, lv: Place, fuel: nat)
    ensures
        mutable_place(g, lv.erased(), fuel) == mutable_place(g, lv, fuel),
    decreases lv,
{
    lemma_erased_name(lv);
    match lv {
        Place::Variable { .. } => {},
        Place::Deref { var } => {
            lemma_place_type_erased(g, *var);
            lemma_mutable_erased(g, *var, fuel);
        },
    }
}

/// What a write does to the environment does not depend on the annotation
/// of the place.
pub proof fn lemma_updated_erased(g: Gamma, lv: Place, cur: Ty, t: Ty, fuel: nat)
    ensures
        updated(g, lv.erased(), cur, t, fuel) == updated(g, lv, cur, t, fuel),
        written(g, lv.erased(), t, fuel) == written(g, lv, t, fuel),
    decreases lv,
{
    lemma_erased_name(lv);
    match lv {
        Place::Variable { .. } => {},
        Place::Deref { var } => {
            match cur {
                Ty::Box(inner) => {
                    lemma_updated_erased(g, *var, *inner, t, fuel);
                },
                _ => {},
            }
            match slot_of(g, lv.name()) {
                Ok(s) => match s.value {
                    Ty::Box(inner) => {
                        lemma_updated_erased(g, *var, *inner, t, fuel);
                    },
                    _ => {},
                },
                Err(_) => {},
            }
        },
    }
}

/// The descent of a write, following at most `fuel` mutable references.
pub fn update_within(
    gamma: TypeEnviroment,
    lv: &LVal,
    t1: Type,
    t2: Type,
    fuel: usize,
) -> (r: Result<(TypeEnviroment, Type), Failure>)
    ensures
        outcome(r) == updated(gamma@, lv@, t1@, t2@, fuel as nat),
    decreases fuel, lv, 0nat,
{
    match lv {
        LVal::Variable { .. } => Ok((gamma, t2)),
        LVal::Deref { var } => match t1 {
            Type::Box(inner) => match update_within(gamma, var, *inner, t2, fuel) {
                Ok((g2, t3)) => Ok((g2, Type::Box(Box::new(t3)))),
                Err(e) => Err(e),
            },
            Type::Reference { var: rvar, mutable } => {
                proof {
                    lemma_erased_name(rvar@);
                    lemma_updated_erased(gamma@, rvar@, Ty::Epsilon, t2@, (fuel - 1) as nat);
                }
                if !mutable {
                    Err(Failure::SharedTarget(rvar.get_name()))
                } else if fuel == 0 {
                    Err(Failure::BorrowCycle(rvar.get_name()))
                } else {
                    match write_within(gamma, rvar.replicate(), t2, fuel - 1) {
                        Ok(g3) => Ok((g3, Type::Reference { var: rvar, mutable })),
                        Err(e) => Err(e),
                    }
                }
            },
            _ => Err(Failure::Shape(lv.get_name())),
        },
    }
}

/// A write of a value of type `t1` to `variable`, following at most `fuel`
/// mutable references.
pub fn write_within(
    gamma: TypeEnviroment,
    variable: LVal,
    t1: Type,
    fuel: usize,
) -> (r: Result<TypeEnviroment, Failure>)
    ensures
        outcome(r) == written(gamma@, variable@, t1@, fuel as nat),
    decreases fuel, variable, 1nat,
{
    let name = variable.get_name();
    match gamma.get(&name) {
        Ok(s) => match update_within(gamma, &variable, s.value, t1, fuel) {
            Ok((g2, t3)) => {
                let mut g2 = g2;
                g2.insert(name, t3, s.lifetime);
                Ok(g2)
            },
            Err(e) => Err(e),
        },
        Err(e) => Err(e),
    }
}

/// The descent of a write: `t1` is the type that stands where `lv` starts and
/// `t2` the type that is written. A chain of mutable references longer than
/// the number of bindings is a cycle.
pub fn update(
    gamma: TypeEnviroment,
    lv: &LVal,
    t1: Type,
    t2: Type,
) -> (r: Result<(TypeEnviroment, Type), Failure>)
    ensures
        outcome(r) == updated(gamma@, lv@, t1@, t2@, gamma@.len()),
{
    let fuel = gamma.gamma.len();
    update_within(gamma, lv, t1, t2, fuel)
}

/// Records that a value of type `t1` has been written to `variable`.
pub fn write(
    gamma: TypeEnviroment,
    variable: LVal,
    t1: Type,
) -> (r: Result<TypeEnviroment, Failure>)
    ensures
        outcome(r) == written(gamma@, variable@, t1@, gamma@.len()),
{
    let fuel = gamma.gamma.len();
    write_within(gamma, variable, t1, fuel)
}

/// A place has a root exactly when it is a variable or starts from a bound
/// one.
pub proof fn lemma_rooted(g: Gamma, lv: Place)
    ensures
        root_of(g, lv) is Ok <==> lv is Variable || bound(g, lv.name()),
        root_of(g, lv) is Ok ==> root_of(g, lv)->Ok_0.erased() == Place::variable(lv.name()),
        root_of(g, lv) is Err ==> root_of(g, lv) == Err::<Place, Fault>(Fault::Unbound(lv.name())),
    decreases lv,
{
    match lv {
        Place::Variable { .. } => {},
        Place::Deref { var } => {
            lemma_rooted(g, *var);
        },
    }
}

/// A place that has a type starts from a bound variable.
pub proof fn lemma_typed_bound(g: Gamma, lv: Place)
    ensures
        place_type(g, lv) is Ok ==> bound(g, lv.name()),
    decreases lv,
{
    match lv {
        Place::Variable { .. } => {},
        Place::Deref { var } => {
            lemma_typed_bound(g, *var);
        },
    }
}

impl Ty {
    /// How the type reads in a message.
    pub open spec fn text(self) -> Seq<char>
        decreases self,
    {
        match self {
            Ty::Epsilon => "Epsilon"@,
            Ty::Numeric => "Numeric"@,
            Ty::Reference { var, mutable } => (if mutable {
                " Mut"@
            } else {
                ""@
            }) + "Ref "@ + var.name(),
            Ty::Box(t) => "Box "@ + t.text(),
            Ty::Undefined(t) => "Undefined "@ + t.text(),
            Ty::Function { args, ret } => "Function ("@ + Ty::list_text(args) + ") -> "@ + (
            match ret {
                Some(t) => t.text(),
                None => "None"@,
            }),
        }
    }

    /// The texts of the types, each followed by a comma and a space.
    pub open spec fn list_text(ts: Seq<Ty>) -> Seq<char>
        decreases ts,
    {
        if ts.len() == 0 {
            Seq::empty()
        } else {
            Ty::list_text(ts.drop_last()) + ts.last().text() + ", "@
        }
    }
}

/// The texts of the types, each followed by a comma and a space.
pub fn list_to_string(types: &Vec<Type>) -> (s: String)
    ensures
        s@ == Ty::list_text(views(types@)),
    decreases types,
{
    let mut s = String::new();
    let mut i: usize = 0;
    assert(views(types@).take(0) =~= Seq::empty());
    while i < types.len()
        invariant
            i <= types@.len(),
            s@ == Ty::list_text(views(types@).take(i as int)),
        decreases types@.len() - i,
    {
        assert(views(types@).take(i + 1).drop_last() =~= views(types@).take(i as int));
        let piece = types[i].to_string();
        s.append(piece.as_str());
        s.append(", ");
        i = i + 1;
    }
    assert(views(types@).take(i as int) =~= views(types@));
    s
}

impl Type {
    /// How the type reads in a message.
    pub fn to_string(&self) -> (s: String)
        ensures
            s@ == self@.text(),
        decreases self,
    {
        proof {
            self.lemma_model();
        }
        match self {
            Type::Epsilon => String::from_str("Epsilon"),
            Type::Numeric => String::from_str("Numeric"),
            Type::Reference { var, mutable } => {
                proof {
                    lemma_erased_name(var@);
                }
                let mut s = if *mutable {
                    String::from_str(" Mut")
                } else {
                    String::from_str("")
                };
                s.append("Ref ");
                let name = var.get_name();
                s.append(name.as_str());
                s
            },
            Type::Box(t) => {
                let mut s = String::from_str("Box ");
                let inner = t.to_string();
                s.append(inner.as_str());
                s
            },
            Type::Undefined(t) => {
                let mut s = String::from_str("Undefined ");
                let inner = t.to_string();
                s.append(inner.as_str());
                s
            },
            Type::Function { args, ret } => {
                let mut s = String::from_str("Function (");
                let list = list_to_string(args);
                s.append(list.as_str());
                s.append(") -> ");
                match ret {
                    Some(t) => {
                        let inner = t.to_string();
                        s.append(inner.as_str());
                    },
                    None => {
                        s.append("None");
                    },
                }
                s
            },
        }
    }
}

/// A name that is bound to something other than a function is in the
/// domain.
pub proof fn lemma_declared_in_domain(g: Gamma, x: Seq<char>)
    requires
        declared(g, x),
    ensures
        domain(g).contains(x),
    decreases g.len(),
{
    lemma_find(g, x);
    let i = find(g, x)->0;
    let init = g.drop_last();
    if i == g.len() - 1 {
        let d = domain(init).push(x);
        assert(d[d.len() - 1] == x);
    } else {
        assert(init[i] == g[i]);
        lemma_find(init, x);
        lemma_declared_in_domain(init, x);
        let j = choose|j: int| 0 <= j < domain(init).len() && domain(init)[j] == x;
        assert(domain(g)[j] == x);
    }
}

/// Every name of the domain is the key of a binding to something other
/// than a function. Gives the index of such a binding.
pub proof fn lemma_domain_entry(g: Gamma, x: Seq<char>) -> (i: int)
    requires
        domain(g).contains(x),
    ensures
        0 <= i < g.len(),
        g[i].0 == x,
        !(g[i].1.value is Function),
    decreases g.len(),
{
    let init = g.drop_last();
    if g.last().1.value is Function {
        let i = lemma_domain_entry(init, x);
        assert(init[i] == g[i]);
        i
    } else {
        let d = domain(init).push(g.last().0);
        let j = choose|j: int| 0 <= j < d.len() && d[j] == x;
        if j == d.len() - 1 {
            g.len() - 1
        } else {
            assert(domain(init)[j] == x);
            let i = lemma_domain_entry(init, x);
            assert(init[i] == g[i]);
            i
        }
    }
}

/// The entry that a name of the domain stands for, given by the position
/// of the name: positions in the domain go up with the entries.
pub proof fn lemma_domain_index(g: Gamma, k: int) -> (i: int)
    requires
        0 <= k < domain(g).len(),
    ensures
        k <= i < g.len(),
        g[i].0 == domain(g)[k],
        domain(g.take(i)).len() == k,
    decreases g.len(),
{
    let init = g.drop_last();
    if !(g.last().1.value is Function) && k == domain(init).len() {
        assert(g.take(g.len() - 1) =~= init);
        lemma_domain_len(init);
        g.len() - 1
    } else {
        let i = lemma_domain_index(init, k);
        assert(init[i] == g[i]);
        assert(init.take(i) =~= g.take(i));
        i
    }
}

/// The domain is no longer than the environment.
pub proof fn lemma_domain_len(g: Gamma)
    ensures
        domain(g).len() <= g.len(),
    decreases g.len(),
{
    if g.len() > 0 {
        lemma_domain_len(g.drop_last());
    }
}

/// Where no name is bound twice, the domain lists no name twice.
pub proof fn lemma_domain_distinct(g: Gamma)
    requires
        distinct_keys(g),
    ensures
        domain(g).no_duplicates(),
{
    let d = domain(g);
    assert forall|j: int, k: int| 0 <= j < d.len() && 0 <= k < d.len() && j != k implies d[j]
        != d[k] by {
        let a = lemma_domain_index(g, j);
        let b = lemma_domain_index(g, k);
        if a == b {
            assert(domain(g.take(a)).len() == j);
        }
    }
}

/// Where no name is bound twice, the names of the domain are those that
/// are bound to something other than a function.
pub proof fn domain_holds_the_declared_names(g: Gamma, x: Seq<char>)
    requires
        distinct_keys(g),
    ensures
        domain(g).contains(x) <==> declared(g, x),
{
    if declared(g, x) {
        lemma_declared_in_domain(g, x);
    }
    if domain(g).contains(x) {
        let i = lemma_domain_entry(g, x);
        lemma_find_distinct(g, i);
    }
}

} // verus!
