//! The annotations of the type checker: a check does not read them, and writes
//! the same ones again.
use crate::ast::{Expr, Place};
use crate::typecheck::{check, check_args, check_seq};
use crate::typing::{lemma_place_type_erased, moved, place_type, Gamma, Ty};
use vstd::prelude::*;

verus! {

/// An annotation replaces the one before it and leaves the rest of the
/// place as it is.
pub proof fn lemma_annotated(lv: Place, a: Option<bool>, b: Option<bool>)
    ensures
        lv.annotated(a).annotated(b) == lv.annotated(b),
        lv.annotated(a).name() == lv.name(),
        lv.annotated(a).depth() == lv.depth(),
        lv.annotated(a).erased() == lv.erased(),
    decreases lv,
{
    match lv {
        Place::Variable { .. } => {},
        Place::Deref { var } => {
            lemma_annotated(*var, a, b);
            lemma_annotated(*var, a, None);
        },
    }
}

/// What a move leaves of a type does not depend on the annotation of the
/// place.
pub proof fn lemma_undefine_annotated(t: Ty, lv: Place, a: Option<bool>)
    ensures
        t.can_undefine(lv.annotated(a)) == t.can_undefine(lv),
        t.undefine(lv.annotated(a)) == t.undefine(lv),
    decreases lv,
{
    match lv {
        Place::Variable { .. } => {},
        Place::Deref { var } => {
            match t {
                Ty::Box(inner) => {
                    lemma_undefine_annotated(*inner, *var, a);
                },
                _ => {},
            }
        },
    }
}

/// The check of a read does not depend on the annotation of the place.
pub proof fn lemma_read_annotated(lv: Place, a: Option<bool>, g: Gamma, l: usize)
    ensures
        check(Expr::Variable(lv.annotated(a)), g, l).1 == check(Expr::Variable(lv), g, l).1,
        check(Expr::Variable(lv), g, l).1 is Ok ==> check(Expr::Variable(lv.annotated(a)), g, l).0
            == check(Expr::Variable(lv), g, l).0,
{
    let lv2 = lv.annotated(a);
    lemma_annotated(lv, a, None);
    lemma_place_type_erased(g, lv);
    lemma_place_type_erased(g, lv2);
    assert(place_type(g, lv2) == place_type(g, lv));
    match place_type(g, lv) {
        Ok(ty) => {
            lemma_annotated(lv, a, Some(ty.copyable()));
            match crate::typing::partial_slot(g, lv.name()) {
                Ok(s) => {
                    lemma_undefine_annotated(s.value, lv, a);
                },
                Err(_) => {},
            }
            assert(moved(g, lv2) == moved(g, lv));
        },
        Err(_) => {},
    }
}

/// A check writes the annotations that it would write again: the check of
/// the term that a successful check leaves gives what the check gave, and
/// leaves the term as it is.
pub proof fn lemma_check_again(t: Expr, g: Gamma, l: usize)
    requires
        check(t, g, l).1 is Ok,
    ensures
        check(check(t, g, l).0, g, l) == check(t, g, l),
    decreases t,
{
    match t {
        Expr::Variable(lv) => {
            let ty = place_type(g, lv)->Ok_0;
            lemma_read_annotated(lv, Some(ty.copyable()), g, l);
        },
        Expr::Box { term } => {
            lemma_check_again(*term, g, l);
        },
        Expr::Let { term, .. } => {
            lemma_check_again(*term, g, l);
        },
        Expr::Assign { term, .. } => {
            lemma_check_again(*term, g, l);
        },
        Expr::FunctionCall { name, params } => {
            let args = crate::typing::slot_of(g, name)->Ok_0.value->Function_args;
            lemma_check_args_again(params, args, g, l);
            lemma_check_args_len(params, args, g, l);
        },
        Expr::FunctionDeclaration { name, args, body, ty } => {
            let g2 = crate::table::put(
                g,
                name,
                crate::typing::Slot {
                    value: crate::typecheck::function_type(args, ty),
                    lifetime: l,
                },
            );
            let inner = crate::typecheck::with_arguments(g2, name, args, l);
            lemma_check_seq_again(body, inner, (l + 1) as usize);
        },
        _ => {},
    }
}

/// The check of parameters leaves as many terms as it found.
pub proof fn lemma_check_args_len(ps: Seq<Expr>, args: Seq<Ty>, g: Gamma, l: usize)
    ensures
        check_args(ps, args, g, l).0.len() == ps.len(),
    decreases ps.len(),
{
    if ps.len() > 0 {
        lemma_check_args_len(ps.drop_last(), args, g, l);
    }
}

/// The check of a sequence leaves as many terms as it found.
pub proof fn lemma_check_seq_len(ts: Seq<Expr>, g: Gamma, l: usize)
    ensures
        check_seq(ts, g, l).0.len() == ts.len(),
    decreases ts.len(),
{
    if ts.len() > 0 {
        lemma_check_seq_len(ts.drop_last(), g, l);
    }
}

/// `lemma_check_again`, for the parameters of a call.
pub proof fn lemma_check_args_again(ps: Seq<Expr>, args: Seq<Ty>, g: Gamma, l: usize)
    requires
        check_args(ps, args, g, l).1 is Ok,
    ensures
        check_args(check_args(ps, args, g, l).0, args, g, l) == check_args(ps, args, g, l),
    decreases ps,
{
    if ps.len() > 0 {
        let init = ps.drop_last();
        lemma_check_args_again(init, args, g, l);
        lemma_check_args_len(init, args, g, l);
        let (done, r) = check_args(init, args, g, l);
        let g1 = r->Ok_0;
        lemma_check_again(ps.last(), g1, l);
        let p = check(ps.last(), g1, l).0;
        let all = done.push(p);
        assert(all.drop_last() =~= done);
        assert(all.last() == p);
    } else {
        assert(check_args(ps, args, g, l).0 =~= ps);
    }
}

/// `lemma_check_again`, for a sequence of terms.
pub proof fn lemma_check_seq_again(ts: Seq<Expr>, g: Gamma, l: usize)
    requires
        check_seq(ts, g, l).1 is Ok,
    ensures
        check_seq(check_seq(ts, g, l).0, g, l) == check_seq(ts, g, l),
    decreases ts,
{
    if ts.len() > 0 {
        let init = ts.drop_last();
        lemma_check_seq_again(init, g, l);
        lemma_check_seq_len(init, g, l);
        let (done, r) = check_seq(init, g, l);
        let g1 = r->Ok_0.0;
        lemma_check_again(ts.last(), g1, l);
        let p = check(ts.last(), g1, l).0;
        let all = done.push(p);
        assert(all.drop_last() =~= done);
        assert(all.last() == p);
    } else {
        assert(check_seq(ts, g, l).0 =~= ts);
    }
}

/// The check of the beginning of a sequence is the beginning of the check
/// of the sequence.
pub proof fn lemma_check_seq_take(ts: Seq<Expr>, g: Gamma, l: usize, i: int)
    requires
        0 <= i <= ts.len(),
        check_seq(ts, g, l).1 is Ok,
    ensures
        check_seq(ts.take(i), g, l).1 is Ok,
        check_seq(ts.take(i), g, l).0 == check_seq(ts, g, l).0.take(i),
    decreases ts.len() - i,
{
    lemma_check_seq_len(ts, g, l);
    if i < ts.len() {
        lemma_check_seq_take(ts, g, l, i + 1);
        assert(ts.take(i + 1).drop_last() =~= ts.take(i));
        lemma_check_seq_len(ts.take(i), g, l);
        assert(check_seq(ts.take(i), g, l).0 =~= check_seq(ts, g, l).0.take(i));
    } else {
        assert(ts.take(i) =~= ts);
        assert(check_seq(ts, g, l).0.take(i) =~= check_seq(ts, g, l).0);
    }
}

} // verus!
