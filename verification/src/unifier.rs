//! Substitutions and the most-general unifier over the term algebra.

use vstd::prelude::*;

use crate::expr::{lemma_free_vars_occurs, occurs, occurs_in_seq, spec_free_vars, term_model,
    terms_model, SpecTerm, Term, Variable};
use crate::util::string_eq;

verus! {

broadcast use vstd::std_specs::vec::axiom_vec_index_decreases;

/// Spec-level model of a single variable binding.
#[verifier::ext_equal]
pub struct SpecBinding {
    pub var: Seq<char>,
    pub term: SpecTerm,
}

/// One-pass application of a single binding to a term: each free occurrence
/// of the bound variable is replaced by the binding's image, without
/// re-expansion inside the image.
pub open spec fn apply_binding(b: SpecBinding, t: SpecTerm) -> SpecTerm
    decreases t,
{
    match t {
        SpecTerm::Const(_) => t,
        SpecTerm::Var(w) => if w == b.var {
            b.term
        } else {
            t
        },
        SpecTerm::Combined { functor, args } => SpecTerm::Combined {
            functor,
            args: apply_binding_seq(b, args),
        },
    }
}

/// One-pass application of a single binding to each term of a sequence.
pub open spec fn apply_binding_seq(b: SpecBinding, args: Seq<SpecTerm>) -> Seq<SpecTerm>
    decreases args,
{
    if args.len() == 0 {
        Seq::empty()
    } else {
        apply_binding_seq(b, args.drop_last()).push(apply_binding(b, args.last()))
    }
}

/// `apply_binding_seq` is the element-by-element map of `apply_binding`.
pub broadcast proof fn lemma_apply_binding_seq(b: SpecBinding, args: Seq<SpecTerm>)
    ensures
        #[trigger] apply_binding_seq(b, args).len() == args.len(),
        forall|i: int|
            0 <= i < args.len() ==> apply_binding_seq(b, args)[i] == apply_binding(b, args[i]),
    decreases args,
{
    if args.len() > 0 {
        lemma_apply_binding_seq(b, args.drop_last());
    }
}

/// One-pass application of a list of bindings: the first binding of the list
/// is applied first, then the second to the result, and so on.
pub open spec fn apply_list(subs: Seq<SpecBinding>, t: SpecTerm) -> SpecTerm
    decreases subs.len(),
{
    if subs.len() == 0 {
        t
    } else {
        apply_list(subs.drop_first(), apply_binding(subs.first(), t))
    }
}

/// Applying a concatenation of two binding lists is applying the first list,
/// then the second.
pub proof fn lemma_apply_list_append(s1: Seq<SpecBinding>, s2: Seq<SpecBinding>, t: SpecTerm)
    ensures
        apply_list(s1 + s2, t) == apply_list(s2, apply_list(s1, t)),
    decreases s1.len(),
{
    if s1.len() == 0 {
        assert(s1 + s2 =~= s2);
    } else {
        assert((s1 + s2).drop_first() =~= s1.drop_first() + s2);
        lemma_apply_list_append(s1.drop_first(), s2, apply_binding(s1.first(), t));
    }
}

/// Applying a single-binding list is one `apply_binding`.
pub proof fn lemma_apply_list_single(b: SpecBinding, t: SpecTerm)
    ensures
        apply_list(seq![b], t) == apply_binding(b, t),
{
    assert(seq![b].drop_first() =~= Seq::<SpecBinding>::empty());
    assert(apply_list(seq![b], t) == apply_list(seq![b].drop_first(), apply_binding(b, t)));
}

/// A single variable binding; a substitution is an ordered list of these,
/// applied first entry first.
#[derive(Debug, PartialEq, Eq)]
pub struct Subst {
    pub var: Variable,
    pub term: Term,
}

impl View for Subst {
    type V = SpecBinding;

    open spec fn view(&self) -> SpecBinding {
        SpecBinding { var: self.var@, term: self.term@ }
    }
}

impl Clone for Subst {
    /// Deep copy; the copy has the same model as the original.
    fn clone(&self) -> (r: Subst)
        ensures
            r@ == self@,
    {
        Subst { var: self.var.clone(), term: self.term.clone() }
    }
}

/// The models of a list of bindings.
pub open spec fn subs_model(ss: Seq<Subst>) -> Seq<SpecBinding> {
    ss.map_values(|s: Subst| s@)
}

/// A constraint: a pair of terms that must be made equal.
pub type Constraint = (Term, Term);

/// The models of a list of constraints.
pub open spec fn constraints_model(cs: Seq<Constraint>) -> Seq<(SpecTerm, SpecTerm)> {
    cs.map_values(|c: Constraint| (c.0@, c.1@))
}

/// One-pass application of `subs` makes both sides of every constraint equal.
pub open spec fn list_unifies(subs: Seq<SpecBinding>, cs: Seq<(SpecTerm, SpecTerm)>) -> bool {
    forall|i: int| 0 <= i < cs.len()
        ==> apply_list(subs, (#[trigger] cs[i]).0) == apply_list(subs, cs[i].1)
}

/// No binding's image contains its own variable.
pub open spec fn acyclic(subs: Seq<SpecBinding>) -> bool {
    forall|i: int| 0 <= i < subs.len() ==> !occurs((#[trigger] subs[i]).var, subs[i].term)
}

/// No binding's variable reappears in any later binding: applying the list
/// in order eliminates each bound variable for good.
pub open spec fn triangular(subs: Seq<SpecBinding>) -> bool {
    forall|i: int, j: int| 0 <= i < j < subs.len()
        ==> (#[trigger] subs[j]).var != (#[trigger] subs[i]).var
            && !occurs(subs[i].var, subs[j].term)
}

/// Every binding of `sigma` draws its variable and its image's variables
/// from `vs`.
pub open spec fn bindings_vars_in(sigma: Seq<SpecBinding>, vs: Set<Seq<char>>) -> bool {
    forall|k: int| 0 <= k < sigma.len() ==> vs.contains((#[trigger] sigma[k]).var) && (forall|
        w: Seq<char>,
    | #[trigger] occurs(w, sigma[k].term) ==> vs.contains(w))
}

/// A substitution in mapping form, used to state what an arbitrary unifier
/// looks like.
pub type SpecSubstMap = Map<Seq<char>, SpecTerm>;

/// One-pass application of a substitution map to a term.
pub open spec fn map_apply(m: SpecSubstMap, t: SpecTerm) -> SpecTerm
    decreases t,
{
    match t {
        SpecTerm::Const(_) => t,
        SpecTerm::Var(v) => if m.dom().contains(v) {
            m[v]
        } else {
            t
        },
        SpecTerm::Combined { functor, args } => SpecTerm::Combined {
            functor,
            args: map_apply_seq(m, args),
        },
    }
}

/// One-pass application of a substitution map to each term of a sequence.
pub open spec fn map_apply_seq(m: SpecSubstMap, args: Seq<SpecTerm>) -> Seq<SpecTerm>
    decreases args,
{
    if args.len() == 0 {
        Seq::empty()
    } else {
        map_apply_seq(m, args.drop_last()).push(map_apply(m, args.last()))
    }
}

/// `map_apply_seq` is the element-by-element map of `map_apply`.
pub broadcast proof fn lemma_map_apply_seq(m: SpecSubstMap, args: Seq<SpecTerm>)
    ensures
        #[trigger] map_apply_seq(m, args).len() == args.len(),
        forall|i: int| 0 <= i < args.len() ==> map_apply_seq(m, args)[i] == map_apply(m, args[i]),
    decreases args,
{
    if args.len() > 0 {
        lemma_map_apply_seq(m, args.drop_last());
    }
}

/// A substitution map makes both sides of every constraint equal.
pub open spec fn map_unifies(m: SpecSubstMap, cs: Seq<(SpecTerm, SpecTerm)>) -> bool {
    forall|i: int| 0 <= i < cs.len()
        ==> map_apply(m, (#[trigger] cs[i]).0) == map_apply(m, cs[i].1)
}

/// The map `m` agrees with every binding of `subs`: binding a variable and
/// then applying `m` is the same as applying `m` directly.
pub open spec fn absorbed(m: SpecSubstMap, subs: Seq<SpecBinding>) -> bool {
    forall|i: int| 0 <= i < subs.len()
        ==> map_apply(m, SpecTerm::Var((#[trigger] subs[i]).var)) == map_apply(m, subs[i].term)
}

/// Applying a binding whose variable does not occur in the term leaves the
/// term unchanged.
pub proof fn lemma_apply_binding_id(b: SpecBinding, t: SpecTerm)
    requires
        !occurs(b.var, t),
    ensures
        apply_binding(b, t) == t,
    decreases t,
{
    match t {
        SpecTerm::Const(_) => {}
        SpecTerm::Var(_) => {}
        SpecTerm::Combined { functor, args } => {
            lemma_apply_binding_seq_id(b, args);
        }
    }
}

proof fn lemma_apply_binding_seq_id(b: SpecBinding, args: Seq<SpecTerm>)
    requires
        !occurs_in_seq(b.var, args),
    ensures
        apply_binding_seq(b, args) == args,
    decreases args,
{
    if args.len() > 0 {
        lemma_apply_binding_seq_id(b, args.drop_last());
        lemma_apply_binding_id(b, args.last());
        assert(apply_binding_seq(b, args) =~= args.drop_last().push(args.last()));
        assert(args.drop_last().push(args.last()) =~= args);
    }
}

/// Where a variable occurs after a one-pass binding application: it occurred
/// already and is not the bound variable, or it came in with the image.
pub proof fn lemma_occurs_apply_binding(v: Seq<char>, b: SpecBinding, t: SpecTerm)
    ensures
        occurs(v, apply_binding(b, t)) == ((occurs(v, t) && v != b.var) || (occurs(b.var, t)
            && occurs(v, b.term))),
    decreases t,
{
    match t {
        SpecTerm::Const(_) => {}
        SpecTerm::Var(_) => {}
        SpecTerm::Combined { functor, args } => {
            lemma_occurs_apply_binding_seq(v, b, args);
        }
    }
}

proof fn lemma_occurs_apply_binding_seq(v: Seq<char>, b: SpecBinding, args: Seq<SpecTerm>)
    ensures
        occurs_in_seq(v, apply_binding_seq(b, args)) == ((occurs_in_seq(v, args) && v != b.var)
            || (occurs_in_seq(b.var, args) && occurs(v, b.term))),
    decreases args,
{
    if args.len() > 0 {
        lemma_occurs_apply_binding_seq(v, b, args.drop_last());
        lemma_occurs_apply_binding(v, b, args.last());
        assert(apply_binding_seq(b, args).drop_last() == apply_binding_seq(b, args.drop_last()));
        assert(apply_binding_seq(b, args).last() == apply_binding(b, args.last()));
    }
}

/// If a map agrees with a binding, applying the binding first makes no
/// difference under the map.
pub proof fn lemma_map_absorb(m: SpecSubstMap, b: SpecBinding, t: SpecTerm)
    requires
        map_apply(m, SpecTerm::Var(b.var)) == map_apply(m, b.term),
    ensures
        map_apply(m, apply_binding(b, t)) == map_apply(m, t),
    decreases t,
{
    match t {
        SpecTerm::Const(_) => {}
        SpecTerm::Var(_) => {}
        SpecTerm::Combined { functor, args } => {
            lemma_map_absorb_seq(m, b, args);
            assert(map_apply_seq(m, apply_binding_seq(b, args)) == map_apply_seq(m, args));
        }
    }
}

proof fn lemma_map_absorb_seq(m: SpecSubstMap, b: SpecBinding, args: Seq<SpecTerm>)
    requires
        map_apply(m, SpecTerm::Var(b.var)) == map_apply(m, b.term),
    ensures
        map_apply_seq(m, apply_binding_seq(b, args)) == map_apply_seq(m, args),
    decreases args,
{
    if args.len() > 0 {
        lemma_map_absorb_seq(m, b, args.drop_last());
        lemma_map_absorb(m, b, args.last());
        assert(apply_binding_seq(b, args).drop_last() == apply_binding_seq(b, args.drop_last()));
        assert(apply_binding_seq(b, args).last() == apply_binding(b, args.last()));
        assert(map_apply_seq(m, apply_binding_seq(b, args)) =~= map_apply_seq(m, args));
    }
}

/// Sequential application of the terms of a binding list to each term of a
/// sequence.
pub open spec fn apply_list_seq(subs: Seq<SpecBinding>, args: Seq<SpecTerm>) -> Seq<SpecTerm>
    decreases args,
{
    if args.len() == 0 {
        Seq::empty()
    } else {
        apply_list_seq(subs, args.drop_last()).push(apply_list(subs, args.last()))
    }
}

/// `apply_list_seq` is the element-by-element map of `apply_list`.
pub broadcast proof fn lemma_apply_list_seq(subs: Seq<SpecBinding>, args: Seq<SpecTerm>)
    ensures
        #[trigger] apply_list_seq(subs, args).len() == args.len(),
        forall|i: int| 0 <= i < args.len() ==> apply_list_seq(subs, args)[i] == apply_list(
            subs,
            args[i],
        ),
    decreases args,
{
    if args.len() > 0 {
        lemma_apply_list_seq(subs, args.drop_last());
    }
}

/// A binding list applies to a compound argument by argument.
pub proof fn lemma_apply_list_combined(subs: Seq<SpecBinding>, f: Seq<char>, args: Seq<SpecTerm>)
    ensures
        apply_list(subs, (SpecTerm::Combined { functor: f, args })) == (SpecTerm::Combined {
            functor: f,
            args: apply_list_seq(subs, args),
        }),
    decreases subs.len(),
{
    lemma_apply_list_seq(subs, args);
    if subs.len() == 0 {
        assert(apply_list_seq(subs, args) =~= args);
    } else {
        let b = subs.first();
        let rest = subs.drop_first();
        lemma_apply_binding_seq(b, args);
        lemma_apply_list_combined(rest, f, apply_binding_seq(b, args));
        lemma_apply_list_seq(rest, apply_binding_seq(b, args));
        assert(apply_list_seq(rest, apply_binding_seq(b, args)) =~= apply_list_seq(subs, args));
    }
}

/// The size of a term: the number of constructor nodes in it.
pub open spec fn term_size(t: SpecTerm) -> nat
    decreases t,
{
    match t {
        SpecTerm::Const(_) => 1,
        SpecTerm::Var(_) => 1,
        SpecTerm::Combined { functor, args } => 1 + terms_size(args),
    }
}

/// The total size of a sequence of terms.
pub open spec fn terms_size(args: Seq<SpecTerm>) -> nat
    decreases args,
{
    if args.len() == 0 {
        0
    } else {
        terms_size(args.drop_last()) + term_size(args.last())
    }
}

/// Every term has positive size.
pub broadcast proof fn lemma_term_size_pos(t: SpecTerm)
    ensures
        #[trigger] term_size(t) >= 1,
{
}

/// The total size of a pending constraint list.
pub open spec fn cs_size(cs: Seq<(SpecTerm, SpecTerm)>) -> nat
    decreases cs,
{
    if cs.len() == 0 {
        0
    } else {
        cs_size(cs.drop_last()) + term_size(cs.last().0) + term_size(cs.last().1)
    }
}

/// The set of variables occurring in a term.
pub open spec fn term_vars(t: SpecTerm) -> Set<Seq<char>> {
    spec_free_vars(t).to_set()
}

/// The set of variables occurring anywhere in a constraint list.
pub open spec fn cs_vars(cs: Seq<(SpecTerm, SpecTerm)>) -> Set<Seq<char>>
    decreases cs,
{
    if cs.len() == 0 {
        Set::empty()
    } else {
        cs_vars(cs.drop_last()).union(term_vars(cs.last().0)).union(term_vars(cs.last().1))
    }
}

/// `term_vars` holds exactly the variables that occur in the term, and is
/// finite.
pub proof fn lemma_term_vars(t: SpecTerm)
    ensures
        term_vars(t).finite(),
        forall|v: Seq<char>| #[trigger] term_vars(t).contains(v) <==> occurs(v, t),
{
    broadcast use vstd::seq_lib::seq_to_set_is_finite;

    lemma_free_vars_occurs(t);
}

/// `cs_vars` holds exactly the variables that occur in some constraint, and
/// is finite.
pub proof fn lemma_cs_vars(cs: Seq<(SpecTerm, SpecTerm)>)
    ensures
        cs_vars(cs).finite(),
        forall|v: Seq<char>| #[trigger] cs_vars(cs).contains(v) <==> exists|k: int|
            0 <= k < cs.len() && (occurs(v, (#[trigger] cs[k]).0) || occurs(v, cs[k].1)),
    decreases cs,
{
    if cs.len() == 0 {
    } else {
        lemma_cs_vars(cs.drop_last());
        lemma_term_vars(cs.last().0);
        lemma_term_vars(cs.last().1);
        assert forall|v: Seq<char>| #[trigger] cs_vars(cs).contains(v) implies exists|k: int|
            0 <= k < cs.len() && (occurs(v, (#[trigger] cs[k]).0) || occurs(v, cs[k].1)) by {
            if cs_vars(cs.drop_last()).contains(v) {
                let k = choose|k: int|
                    0 <= k < cs.drop_last().len() && (occurs(v, (#[trigger] cs.drop_last()[k]).0)
                        || occurs(v, cs.drop_last()[k].1));
                assert(cs[k] == cs.drop_last()[k]);
                assert(occurs(v, cs[k].0) || occurs(v, cs[k].1));
            } else {
                let k = cs.len() - 1;
                assert(occurs(v, cs[k].0) || occurs(v, cs[k].1));
            }
        }
        assert forall|v: Seq<char>| (exists|k: int|
            0 <= k < cs.len() && (occurs(v, (#[trigger] cs[k]).0) || occurs(v, cs[k].1)))
            implies #[trigger] cs_vars(cs).contains(v) by {
            let k = choose|k: int|
                0 <= k < cs.len() && (occurs(v, (#[trigger] cs[k]).0) || occurs(v, cs[k].1));
            if k < cs.len() - 1 {
                assert(cs.drop_last()[k] == cs[k]);
                assert(cs_vars(cs.drop_last()).contains(v));
            } else {
                assert(term_vars(cs.last().0).contains(v) || term_vars(cs.last().1).contains(v));
            }
        }
    }
}

/// Splitting off the last constraint splits the size.
pub proof fn lemma_cs_size_append(x: Seq<(SpecTerm, SpecTerm)>, y: Seq<(SpecTerm, SpecTerm)>)
    ensures
        cs_size(x + y) == cs_size(x) + cs_size(y),
    decreases y.len(),
{
    if y.len() == 0 {
        assert(x + y =~= x);
    } else {
        assert((x + y).drop_last() =~= x + y.drop_last());
        assert((x + y).last() == y.last());
        lemma_cs_size_append(x, y.drop_last());
    }
}

/// Each term of a sequence is no larger than the whole sequence.
pub proof fn lemma_terms_size_le(args: Seq<SpecTerm>, k: int)
    requires
        0 <= k < args.len(),
    ensures
        term_size(args[k]) <= terms_size(args),
    decreases args,
{
    if k < args.len() - 1 {
        lemma_terms_size_le(args.drop_last(), k);
        assert(args.drop_last()[k] == args[k]);
    }
}

/// A variable that occurs at some position occurs in the sequence.
pub proof fn lemma_occurs_in_seq_index(v: Seq<char>, args: Seq<SpecTerm>, k: int)
    requires
        0 <= k < args.len(),
        occurs(v, args[k]),
    ensures
        occurs_in_seq(v, args),
    decreases args,
{
    if k < args.len() - 1 {
        lemma_occurs_in_seq_index(v, args.drop_last(), k);
        assert(args.drop_last()[k] == args[k]);
    }
}

/// A variable that occurs in the sequence occurs at some position.
pub proof fn lemma_occurs_in_seq_witness(v: Seq<char>, args: Seq<SpecTerm>) -> (k: int)
    requires
        occurs_in_seq(v, args),
    ensures
        0 <= k < args.len(),
        occurs(v, args[k]),
    decreases args,
{
    if occurs(v, args.last()) {
        args.len() - 1
    } else {
        let k = lemma_occurs_in_seq_witness(v, args.drop_last());
        assert(args.drop_last()[k] == args[k]);
        k
    }
}

/// No bound variable of `sigma` occurs anywhere in the pending constraints.
spec fn bound_gone(sigma: Seq<SpecBinding>, csm: Seq<(SpecTerm, SpecTerm)>) -> bool {
    forall|i: int, k: int| 0 <= i < sigma.len() && 0 <= k < csm.len()
        ==> !occurs((#[trigger] sigma[i]).var, (#[trigger] csm[k]).0)
            && !occurs(sigma[i].var, csm[k].1)
}

/// The working invariant of the unifier: `cs0` is the original constraint
/// list, `csm` what is still pending, `sigma` the bindings produced so far.
spec fn uni_inv(
    cs0: Seq<(SpecTerm, SpecTerm)>,
    csm: Seq<(SpecTerm, SpecTerm)>,
    sigma: Seq<SpecBinding>,
) -> bool {
    &&& acyclic(sigma)
    &&& triangular(sigma)
    &&& bound_gone(sigma, csm)
    &&& (forall|tau: Seq<SpecBinding>| #[trigger] list_unifies(tau, csm) ==> list_unifies(
        sigma + tau,
        cs0,
    ))
    &&& (forall|theta: SpecSubstMap| #[trigger] map_unifies(theta, cs0) ==> map_unifies(theta, csm)
        && absorbed(theta, sigma))
}

/// Discarding a pending constraint whose sides are already equal keeps the
/// invariant and shrinks the measure.
proof fn lemma_step_equal(
    cs0: Seq<(SpecTerm, SpecTerm)>,
    csm_pre: Seq<(SpecTerm, SpecTerm)>,
    sigma: Seq<SpecBinding>,
)
    requires
        uni_inv(cs0, csm_pre, sigma),
        csm_pre.len() > 0,
        csm_pre.last().0 == csm_pre.last().1,
    ensures
        uni_inv(cs0, csm_pre.drop_last(), sigma),
        cs_vars(csm_pre.drop_last()).len() <= cs_vars(csm_pre).len(),
        cs_vars(csm_pre.drop_last()).finite(),
        cs_vars(csm_pre).finite(),
        cs_vars(csm_pre.drop_last()).subset_of(cs_vars(csm_pre)),
        cs_size(csm_pre.drop_last()) < cs_size(csm_pre),
    decreases 0int,
{
    broadcast use lemma_term_size_pos;

    let rest = csm_pre.drop_last();
    assert forall|tau: Seq<SpecBinding>| #[trigger] list_unifies(tau, rest) implies list_unifies(
        sigma + tau,
        cs0,
    ) by {
        assert forall|i: int| 0 <= i < csm_pre.len() implies apply_list(
            tau,
            (#[trigger] csm_pre[i]).0,
        ) == apply_list(tau, csm_pre[i].1) by {
            if i < csm_pre.len() - 1 {
                assert(rest[i] == csm_pre[i]);
                assert(apply_list(tau, (rest[i]).0) == apply_list(tau, rest[i].1));
            }
        }
        assert(list_unifies(tau, csm_pre));
    }
    assert forall|theta: SpecSubstMap| #[trigger] map_unifies(theta, cs0) implies map_unifies(
        theta,
        rest,
    ) && absorbed(theta, sigma) by {
        assert(map_unifies(theta, csm_pre));
        assert forall|i: int| 0 <= i < rest.len() implies map_apply(theta, (#[trigger] rest[i]).0)
            == map_apply(theta, rest[i].1) by {
            assert(rest[i] == csm_pre[i]);
            assert(map_apply(theta, csm_pre[i].0) == map_apply(theta, csm_pre[i].1));
        }
    }
    assert forall|i: int, k: int| 0 <= i < sigma.len() && 0 <= k < rest.len() implies !occurs(
        (#[trigger] sigma[i]).var,
        (#[trigger] rest[k]).0,
    ) && !occurs(sigma[i].var, rest[k].1) by {
        assert(rest[k] == csm_pre[k]);
        assert(!occurs(sigma[i].var, csm_pre[k].0) && !occurs(sigma[i].var, csm_pre[k].1));
    }
    lemma_cs_vars(rest);
    lemma_cs_vars(csm_pre);
    assert forall|v: Seq<char>| #[trigger] cs_vars(rest).contains(v) implies cs_vars(
        csm_pre,
    ).contains(v) by {
        let k = choose|k: int|
            0 <= k < rest.len() && (occurs(v, (#[trigger] rest[k]).0) || occurs(v, rest[k].1));
        assert(rest[k] == csm_pre[k]);
        assert(occurs(v, csm_pre[k].0) || occurs(v, csm_pre[k].1));
    }
    vstd::set_lib::lemma_len_subset(cs_vars(rest), cs_vars(csm_pre));
}

/// Binding a variable, and rewriting the pending constraints with the new
/// binding, keeps the invariant and removes the variable from the measure.
proof fn lemma_step_bind(
    cs0: Seq<(SpecTerm, SpecTerm)>,
    csm_pre: Seq<(SpecTerm, SpecTerm)>,
    sigma: Seq<SpecBinding>,
    bv: Seq<char>,
    bt: SpecTerm,
    csm_new: Seq<(SpecTerm, SpecTerm)>,
)
    requires
        uni_inv(cs0, csm_pre, sigma),
        csm_pre.len() > 0,
        csm_pre.last() == (SpecTerm::Var(bv), bt) || csm_pre.last() == (bt, SpecTerm::Var(bv)),
        !occurs(bv, bt),
        csm_new.len() == csm_pre.len() - 1,
        forall|k: int| 0 <= k < csm_new.len() ==> #[trigger] csm_new[k] == (
            apply_binding(SpecBinding { var: bv, term: bt }, csm_pre[k].0),
            apply_binding(SpecBinding { var: bv, term: bt }, csm_pre[k].1),
        ),
    ensures
        uni_inv(cs0, csm_new, sigma.push(SpecBinding { var: bv, term: bt })),
        cs_vars(csm_new).finite(),
        cs_vars(csm_pre).finite(),
        cs_vars(csm_new).len() < cs_vars(csm_pre).len(),
        cs_vars(csm_new).subset_of(cs_vars(csm_pre)),
        cs_vars(csm_pre).contains(bv),
        forall|w: Seq<char>| #[trigger] occurs(w, bt) ==> cs_vars(csm_pre).contains(w),
{
    let b = SpecBinding { var: bv, term: bt };
    let sigma2 = sigma.push(b);
    let rest = csm_pre.drop_last();
    let last = csm_pre.last();

    // The new binding is not cyclic, so the extended list stays acyclic.
    assert(acyclic(sigma2)) by {
        assert forall|i: int| 0 <= i < sigma2.len() implies !occurs(
            (#[trigger] sigma2[i]).var,
            sigma2[i].term,
        ) by {
            if i < sigma.len() {
                assert(sigma2[i] == sigma[i]);
                assert(!occurs(sigma[i].var, sigma[i].term));
            }
        }
    }

    // Earlier bound variables are gone from the pending set, so they do not
    // occur in the new binding either: the list stays triangular.
    assert(triangular(sigma2)) by {
        assert forall|i: int, j: int| 0 <= i < j < sigma2.len() implies (#[trigger] sigma2[j]).var
            != (#[trigger] sigma2[i]).var && !occurs(sigma2[i].var, sigma2[j].term) by {
            if j < sigma.len() {
                assert(sigma2[i] == sigma[i] && sigma2[j] == sigma[j]);
                assert(sigma[j].var != sigma[i].var && !occurs(sigma[i].var, sigma[j].term));
            } else {
                assert(sigma2[j] == b);
                assert(sigma2[i] == sigma[i]);
                let vi = sigma[i].var;
                assert(!occurs(vi, last.0) && !occurs(vi, last.1)) by {
                    assert(0 <= i < sigma.len() && 0 <= csm_pre.len() - 1 < csm_pre.len());
                    assert(csm_pre[csm_pre.len() - 1] == last);
                }
                assert(occurs(vi, SpecTerm::Var(bv)) == (vi == bv));
            }
        }
    }

    // Rewriting removed `bv`, and introduced only variables of `bt`.
    assert(bound_gone(sigma2, csm_new)) by {
        assert forall|i: int, k: int| 0 <= i < sigma2.len() && 0 <= k < csm_new.len()
            implies !occurs((#[trigger] sigma2[i]).var, (#[trigger] csm_new[k]).0) && !occurs(
            sigma2[i].var,
            csm_new[k].1,
        ) by {
            let vi = sigma2[i].var;
            assert(csm_pre[k] == rest[k] || true);
            lemma_occurs_apply_binding(vi, b, csm_pre[k].0);
            lemma_occurs_apply_binding(vi, b, csm_pre[k].1);
            if i < sigma.len() {
                assert(sigma2[i] == sigma[i]);
                assert(!occurs(vi, csm_pre[k].0) && !occurs(vi, csm_pre[k].1));
                // earlier vars do not occur in bt: that is the triangularity
                // fact proved above
                assert(!occurs(vi, bt)) by {
                    assert(sigma2[sigma.len() as int] == b);
                    assert(triangular(sigma2));
                }
            } else {
                assert(sigma2[i] == b);
                assert(!occurs(bv, bt));
            }
        }
    }

    // Soundness: anything that unifies the rewritten set, prefixed with the
    // new binding, unifies the previous set.
    assert forall|tau: Seq<SpecBinding>| #[trigger] list_unifies(tau, csm_new)
        implies list_unifies(sigma2 + tau, cs0) by {
        let btau = seq![b] + tau;
        assert(btau.first() == b && btau.drop_first() =~= tau);
        assert forall|i: int| 0 <= i < csm_pre.len() implies apply_list(
            btau,
            (#[trigger] csm_pre[i]).0,
        ) == apply_list(btau, csm_pre[i].1) by {
            if i < csm_pre.len() - 1 {
                assert(apply_list(btau, csm_pre[i].0) == apply_list(
                    tau,
                    apply_binding(b, csm_pre[i].0),
                ));
                assert(csm_new[i] == (
                    apply_binding(b, csm_pre[i].0),
                    apply_binding(b, csm_pre[i].1),
                ));
                assert(apply_list(tau, csm_new[i].0) == apply_list(tau, csm_new[i].1));
            } else {
                lemma_apply_binding_id(b, bt);
                assert(apply_binding(b, SpecTerm::Var(bv)) == bt);
                assert(apply_list(btau, SpecTerm::Var(bv)) == apply_list(tau, bt));
                assert(apply_list(btau, bt) == apply_list(tau, bt));
            }
        }
        assert(list_unifies(btau, csm_pre));
        assert(list_unifies(sigma + btau, cs0));
        assert(sigma + btau =~= sigma2 + tau);
    }

    // Most generality: a unifier of the original set absorbs the new binding
    // and still unifies the rewritten set.
    assert forall|theta: SpecSubstMap| #[trigger] map_unifies(theta, cs0) implies map_unifies(
        theta,
        csm_new,
    ) && absorbed(theta, sigma2) by {
        assert(map_unifies(theta, csm_pre) && absorbed(theta, sigma));
        assert(map_apply(theta, last.0) == map_apply(theta, last.1)) by {
            assert(csm_pre[csm_pre.len() - 1] == last);
        }
        assert(map_apply(theta, SpecTerm::Var(bv)) == map_apply(theta, bt));
        assert forall|i: int| 0 <= i < sigma2.len() implies map_apply(
            theta,
            SpecTerm::Var((#[trigger] sigma2[i]).var),
        ) == map_apply(theta, sigma2[i].term) by {
            if i < sigma.len() {
                assert(sigma2[i] == sigma[i]);
                assert(map_apply(theta, SpecTerm::Var(sigma[i].var)) == map_apply(
                    theta,
                    sigma[i].term,
                ));
            } else {
                assert(sigma2[i] == b);
            }
        }
        assert forall|k: int| 0 <= k < csm_new.len() implies map_apply(
            theta,
            (#[trigger] csm_new[k]).0,
        ) == map_apply(theta, csm_new[k].1) by {
            lemma_map_absorb(theta, b, csm_pre[k].0);
            lemma_map_absorb(theta, b, csm_pre[k].1);
            assert(csm_new[k] == (apply_binding(b, csm_pre[k].0), apply_binding(b, csm_pre[k].1)));
            assert(map_apply(theta, csm_pre[k].0) == map_apply(theta, csm_pre[k].1)) by {
                assert(0 <= k < csm_pre.len());
            }
        }
    }

    // The measure: the bound variable is gone for good.
    lemma_cs_vars(csm_new);
    lemma_cs_vars(csm_pre);
    assert(cs_vars(csm_pre).contains(bv)) by {
        assert(occurs(bv, last.0) || occurs(bv, last.1));
        assert(csm_pre[csm_pre.len() - 1] == last);
    }
    assert forall|w: Seq<char>| #[trigger] cs_vars(csm_new).contains(w) implies cs_vars(
        csm_pre,
    ).remove(bv).contains(w) by {
        let k = choose|k: int|
            0 <= k < csm_new.len() && (occurs(w, (#[trigger] csm_new[k]).0) || occurs(
                w,
                csm_new[k].1,
            ));
        lemma_occurs_apply_binding(w, b, csm_pre[k].0);
        lemma_occurs_apply_binding(w, b, csm_pre[k].1);
        assert(csm_new[k] == (apply_binding(b, csm_pre[k].0), apply_binding(b, csm_pre[k].1)));
        if occurs(w, csm_pre[k].0) || occurs(w, csm_pre[k].1) {
            assert(cs_vars(csm_pre).contains(w));
        } else {
            assert(occurs(w, bt));
            assert(csm_pre[csm_pre.len() - 1] == last);
            assert(occurs(w, last.0) || occurs(w, last.1));
            assert(cs_vars(csm_pre).contains(w));
        }
        assert(w != bv) by {
            assert(!occurs(bv, bt));
        }
    }
    vstd::set_lib::lemma_len_subset(cs_vars(csm_new), cs_vars(csm_pre).remove(bv));
    assert(cs_vars(csm_pre).remove(bv).len() < cs_vars(csm_pre).len()) by {
        broadcast use vstd::set::group_set_axioms;
    }
    assert forall|w: Seq<char>| #[trigger] occurs(w, bt) implies cs_vars(csm_pre).contains(
        w,
    ) by {
        assert(csm_pre[csm_pre.len() - 1] == last);
        assert(occurs(w, last.0) || occurs(w, last.1));
    }
}

/// The size of a zip of two argument lists is the sum of their sizes.
proof fn lemma_cs_size_zip(z: Seq<(SpecTerm, SpecTerm)>, a1: Seq<SpecTerm>, a2: Seq<SpecTerm>)
    requires
        z.len() == a1.len(),
        z.len() == a2.len(),
        forall|k: int| 0 <= k < z.len() ==> #[trigger] z[k] == (a1[k], a2[k]),
    ensures
        cs_size(z) == terms_size(a1) + terms_size(a2),
    decreases z.len(),
{
    if z.len() > 0 {
        assert forall|k: int| 0 <= k < z.drop_last().len() implies #[trigger] z.drop_last()[k] == (
            a1.drop_last()[k],
            a2.drop_last()[k],
        ) by {
            assert(z.drop_last()[k] == z[k]);
            assert(a1.drop_last()[k] == a1[k] && a2.drop_last()[k] == a2[k]);
        }
        lemma_cs_size_zip(z.drop_last(), a1.drop_last(), a2.drop_last());
        assert(z[z.len() - 1] == (a1.last(), a2.last()));
    }
}

/// Replacing a compound pair by the pairs of its arguments keeps the
/// invariant and shrinks the measure.
proof fn lemma_step_decompose(
    cs0: Seq<(SpecTerm, SpecTerm)>,
    csm_pre: Seq<(SpecTerm, SpecTerm)>,
    sigma: Seq<SpecBinding>,
    f: Seq<char>,
    a1: Seq<SpecTerm>,
    a2: Seq<SpecTerm>,
    csm_new: Seq<(SpecTerm, SpecTerm)>,
)
    requires
        uni_inv(cs0, csm_pre, sigma),
        csm_pre.len() > 0,
        csm_pre.last() == ((SpecTerm::Combined { functor: f, args: a1 }), (SpecTerm::Combined {
            functor: f,
            args: a2,
        })),
        a1.len() == a2.len(),
        csm_new.len() == csm_pre.len() - 1 + a1.len(),
        forall|k: int| 0 <= k < csm_pre.len() - 1 ==> #[trigger] csm_new[k] == csm_pre[k],
        forall|k: int| 0 <= k < a1.len() ==> #[trigger] csm_new[csm_pre.len() - 1 + k] == (
            a1[k],
            a2[k],
        ),
    ensures
        uni_inv(cs0, csm_new, sigma),
        cs_vars(csm_new).finite(),
        cs_vars(csm_pre).finite(),
        cs_vars(csm_new).len() <= cs_vars(csm_pre).len(),
        cs_vars(csm_new).subset_of(cs_vars(csm_pre)),
        cs_size(csm_new) < cs_size(csm_pre),
{
    broadcast use lemma_term_size_pos;

    let rest = csm_pre.drop_last();
    let n = rest.len() as int;
    let t1 = SpecTerm::Combined { functor: f, args: a1 };
    let t2 = SpecTerm::Combined { functor: f, args: a2 };
    let z = csm_new.subrange(n, csm_new.len() as int);
    assert forall|k: int| 0 <= k < csm_new.len() implies #[trigger] csm_new[k] == (rest + z)[k] by {
        if k < n {
            assert(csm_new[k] == csm_pre[k]);
            assert((rest + z)[k] == rest[k]);
            assert(rest[k] == csm_pre[k]);
        } else {
            assert((rest + z)[k] == z[k - n]);
        }
    }
    assert(csm_new =~= rest + z);
    assert forall|k: int| 0 <= k < z.len() implies #[trigger] z[k] == (a1[k], a2[k]) by {
        assert(z[k] == csm_new[n + k]);
        assert(csm_new[csm_pre.len() - 1 + k] == (a1[k], a2[k]));
    }

    // Soundness.
    assert forall|tau: Seq<SpecBinding>| #[trigger] list_unifies(tau, csm_new)
        implies list_unifies(sigma + tau, cs0) by {
        assert forall|i: int| 0 <= i < csm_pre.len() implies apply_list(
            tau,
            (#[trigger] csm_pre[i]).0,
        ) == apply_list(tau, csm_pre[i].1) by {
            if i < n {
                assert(csm_new[i] == csm_pre[i]);
                assert(apply_list(tau, csm_new[i].0) == apply_list(tau, csm_new[i].1));
            } else {
                lemma_apply_list_combined(tau, f, a1);
                lemma_apply_list_combined(tau, f, a2);
                lemma_apply_list_seq(tau, a1);
                lemma_apply_list_seq(tau, a2);
                assert forall|k: int| 0 <= k < a1.len() implies apply_list(tau, a1[k])
                    == apply_list(tau, a2[k]) by {
                    assert(csm_new[n + k] == (a1[k], a2[k]));
                    assert(apply_list(tau, csm_new[n + k].0) == apply_list(tau, csm_new[n + k].1));
                }
                assert(apply_list_seq(tau, a1) =~= apply_list_seq(tau, a2));
                assert(csm_pre[i] == (t1, t2));
            }
        }
        assert(list_unifies(tau, csm_pre));
    }

    // Most generality.
    assert forall|theta: SpecSubstMap| #[trigger] map_unifies(theta, cs0) implies map_unifies(
        theta,
        csm_new,
    ) && absorbed(theta, sigma) by {
        assert(map_unifies(theta, csm_pre) && absorbed(theta, sigma));
        lemma_map_apply_seq(theta, a1);
        lemma_map_apply_seq(theta, a2);
        assert(map_apply(theta, t1) == map_apply(theta, t2)) by {
            assert(csm_pre[csm_pre.len() - 1] == (t1, t2));
        }
        assert(map_apply_seq(theta, a1) == map_apply_seq(theta, a2));
        assert forall|k: int| 0 <= k < csm_new.len() implies map_apply(
            theta,
            (#[trigger] csm_new[k]).0,
        ) == map_apply(theta, csm_new[k].1) by {
            if k < n {
                assert(csm_new[k] == csm_pre[k]);
                assert(map_apply(theta, csm_pre[k].0) == map_apply(theta, csm_pre[k].1));
            } else {
                let j = k - n;
                assert(csm_new[n + j] == (a1[j], a2[j]));
                assert(map_apply_seq(theta, a1)[j] == map_apply_seq(theta, a2)[j]);
            }
        }
    }

    // Bound variables stay gone: the argument pairs hold only variables of
    // the compound pair they came from.
    assert forall|i: int, k: int| 0 <= i < sigma.len() && 0 <= k < csm_new.len() implies !occurs(
        (#[trigger] sigma[i]).var,
        (#[trigger] csm_new[k]).0,
    ) && !occurs(sigma[i].var, csm_new[k].1) by {
        let vi = sigma[i].var;
        if k < n {
            assert(csm_new[k] == csm_pre[k]);
            assert(!occurs(vi, csm_pre[k].0) && !occurs(vi, csm_pre[k].1));
        } else {
            let j = k - n;
            assert(csm_new[n + j] == (a1[j], a2[j]));
            assert(!occurs(vi, t1) && !occurs(vi, t2)) by {
                assert(csm_pre[csm_pre.len() - 1] == (t1, t2));
            }
            if occurs(vi, a1[j]) {
                lemma_occurs_in_seq_index(vi, a1, j);
            }
            if occurs(vi, a2[j]) {
                lemma_occurs_in_seq_index(vi, a2, j);
            }
        }
    }

    // Measure: no new variables, and two constructor nodes disappeared.
    lemma_cs_vars(csm_new);
    lemma_cs_vars(csm_pre);
    assert forall|w: Seq<char>| #[trigger] cs_vars(csm_new).contains(w) implies cs_vars(
        csm_pre,
    ).contains(w) by {
        let k = choose|k: int|
            0 <= k < csm_new.len() && (occurs(w, (#[trigger] csm_new[k]).0) || occurs(
                w,
                csm_new[k].1,
            ));
        if k < n {
            assert(csm_new[k] == csm_pre[k]);
            assert(occurs(w, csm_pre[k].0) || occurs(w, csm_pre[k].1));
        } else {
            let j = k - n;
            assert(csm_new[n + j] == (a1[j], a2[j]));
            if occurs(w, a1[j]) {
                lemma_occurs_in_seq_index(w, a1, j);
            }
            if occurs(w, a2[j]) {
                lemma_occurs_in_seq_index(w, a2, j);
            }
            assert(occurs(w, t1) || occurs(w, t2));
            assert(csm_pre[csm_pre.len() - 1] == (t1, t2));
        }
    }
    vstd::set_lib::lemma_len_subset(cs_vars(csm_new), cs_vars(csm_pre));
    lemma_cs_size_zip(z, a1, a2);
    lemma_cs_size_append(rest, z);
    assert(cs_size(csm_pre) == cs_size(rest) + term_size(t1) + term_size(t2));
}

/// A term in which a variable occurs strictly is strictly larger than that
/// variable under any one-pass map application.
proof fn lemma_occurs_size(m: SpecSubstMap, v: Seq<char>, t: SpecTerm)
    requires
        occurs(v, t),
        t != SpecTerm::Var(v),
    ensures
        term_size(map_apply(m, t)) > term_size(map_apply(m, SpecTerm::Var(v))),
    decreases t,
{
    broadcast use lemma_term_size_pos;

    match t {
        SpecTerm::Const(_) => {}
        SpecTerm::Var(_) => {}
        SpecTerm::Combined { functor, args } => {
            let k = lemma_occurs_in_seq_witness(v, args);
            lemma_map_apply_seq(m, args);
            lemma_terms_size_le(map_apply_seq(m, args), k);
            if args[k] == SpecTerm::Var(v) {
            } else {
                lemma_occurs_size(m, v, args[k]);
            }
        }
    }
}

/// A pending pair whose sides cannot be made equal by any substitution map
/// refutes every unifier of the original constraints.
proof fn lemma_step_fail(
    cs0: Seq<(SpecTerm, SpecTerm)>,
    csm_pre: Seq<(SpecTerm, SpecTerm)>,
    sigma: Seq<SpecBinding>,
)
    requires
        uni_inv(cs0, csm_pre, sigma),
        csm_pre.len() > 0,
        csm_pre.last().0 != csm_pre.last().1,
        ({
            let l = csm_pre.last().0;
            let r = csm_pre.last().1;
            ||| (l is Const && !(r is Var))
            ||| (r is Const && !(l is Var))
            ||| (l matches SpecTerm::Combined { functor: f1, args: a1 }
                && r matches SpecTerm::Combined { functor: f2, args: a2 }
                && (f1 != f2 || a1.len() != a2.len()))
            ||| (l matches SpecTerm::Var(v) && occurs(v, r))
            ||| (r matches SpecTerm::Var(v) && occurs(v, l))
        }),
    ensures
        forall|theta: SpecSubstMap| !map_unifies(theta, cs0),
{
    let l = csm_pre.last().0;
    let r = csm_pre.last().1;
    assert forall|theta: SpecSubstMap| !map_unifies(theta, cs0) by {
        if map_unifies(theta, cs0) {
            assert(map_unifies(theta, csm_pre));
            assert(map_apply(theta, l) == map_apply(theta, r)) by {
                assert(csm_pre[csm_pre.len() - 1] == (l, r));
            }
            lemma_map_apply_seq(theta, Seq::<SpecTerm>::empty());
            if l is Const && !(r is Var) {
                assert(false);
            } else if r is Const && !(l is Var) {
                assert(false);
            } else if l is Combined && r is Combined {
                let a1 = l->Combined_args;
                let a2 = r->Combined_args;
                lemma_map_apply_seq(theta, a1);
                lemma_map_apply_seq(theta, a2);
                assert(false);
            } else if l is Var && occurs(l->Var_0, r) {
                lemma_occurs_size(theta, l->Var_0, r);
                assert(false);
            } else if r is Var && occurs(r->Var_0, l) {
                lemma_occurs_size(theta, r->Var_0, l);
                assert(false);
            }
        }
    }
}

/// Whether variable `v` occurs in term `t`.
pub fn var_occurs(v: &String, t: &Term) -> (r: bool)
    ensures
        r == occurs(v@, t@),
    decreases *t,
{
    match t {
        Term::Const(_) => false,
        Term::Var(w) => string_eq(w, v),
        Term::Combined { functor, args } => var_occurs_in_terms(v, args),
    }
}

/// Whether variable `v` occurs in any term of `ts`.
fn var_occurs_in_terms(v: &String, ts: &Vec<Term>) -> (r: bool)
    ensures
        r == occurs_in_seq(v@, terms_model(ts@)),
    decreases ts@,
{
    let ghost ms = terms_model(ts@);
    let mut found = false;
    let mut i: usize = 0;
    proof {
        assert(ms.take(0) =~= Seq::<SpecTerm>::empty());
    }
    while i < ts.len()
        invariant
            i <= ts.len(),
            ms == terms_model(ts@),
            found == occurs_in_seq(v@, ms.take(i as int)),
        decreases ts@.len() - i,
    {
        if var_occurs(v, &ts[i]) {
            found = true;
        }
        proof {
            crate::expr::lemma_terms_model(ts@);
            assert(ms.take(i + 1).drop_last() =~= ms.take(i as int));
            assert(ms.take(i + 1).last() == ms[i as int]);
        }
        i = i + 1;
    }
    proof {
        crate::expr::lemma_terms_model(ts@);
        assert(ms.take(ts@.len() as int) =~= ms);
    }
    found
}

/// Rewrites every pending constraint with a single binding, on both sides.
fn rewrite_constraints(constraints: &mut Vec<Constraint>, sub: &Subst)
    ensures
        final(constraints)@.len() == old(constraints)@.len(),
        forall|k: int| 0 <= k < final(constraints)@.len()
            ==> (#[trigger] final(constraints)@[k]).0@
                == apply_binding(sub@, old(constraints)@[k].0@)
            && final(constraints)@[k].1@ == apply_binding(sub@, old(constraints)@[k].1@),
{
    let mut i: usize = 0;
    while i < constraints.len()
        invariant
            i <= constraints@.len(),
            constraints@.len() == old(constraints)@.len(),
            forall|k: int| i <= k < constraints@.len() ==> #[trigger] constraints@[k]
                == old(constraints)@[k],
            forall|k: int| 0 <= k < i ==> #[trigger] constraints@[k].0@ == apply_binding(
                sub@,
                old(constraints)@[k].0@,
            ) && constraints@[k].1@ == apply_binding(sub@, old(constraints)@[k].1@),
        decreases constraints@.len() - i,
    {
        let new_left = constraints[i].0.subst(sub);
        let new_right = constraints[i].1.subst(sub);
        constraints.set(i, (new_left, new_right));
        i = i + 1;
    }
}

/// The most-general unifier of a working set of constraints, by iterated
/// removal: equal pairs are discarded, a variable on either side is bound
/// and substituted through the rest (with the occurs-check: a variable is
/// never bound to a term containing it), compounds are matched functor for
/// functor and argument for argument, and anything else fails.
///
/// On success the returned bindings, applied first to last, make both sides
/// of every input pair equal, and any other unifier factors through them; on
/// failure, no substitution at all makes every input pair equal.
#[verifier::loop_isolation(false)]
pub fn unify(constraints: &mut Vec<Constraint>) -> (r: Option<Vec<Subst>>)
    ensures
        (match r {
            Some(subs) => ({
                let sigma = subs_model(subs@);
                let cs0 = constraints_model(old(constraints)@);
                &&& acyclic(sigma)
                &&& triangular(sigma)
                &&& list_unifies(sigma, cs0)
                &&& bindings_vars_in(sigma, cs_vars(cs0))
                &&& (forall|theta: SpecSubstMap| #[trigger] map_unifies(theta, cs0) ==> absorbed(
                    theta,
                    sigma,
                ))
            }),
            None => forall|theta: SpecSubstMap| !map_unifies(
                theta,
                constraints_model(old(constraints)@),
            ),
        }),
{
    let ghost cs0 = constraints_model(constraints@);
    let mut subs: Vec<Subst> = Vec::new();
    proof {
        let csm = constraints_model(constraints@);
        let sigma = subs_model(subs@);
        assert(sigma =~= Seq::<SpecBinding>::empty());
        assert forall|tau: Seq<SpecBinding>| #[trigger] list_unifies(tau, csm)
            implies list_unifies(sigma + tau, cs0) by {
            assert(sigma + tau =~= tau);
        }
        lemma_cs_vars(csm);
    }
    while constraints.len() > 0
        invariant
            uni_inv(cs0, constraints_model(constraints@), subs_model(subs@)),
            cs_vars(constraints_model(constraints@)).finite(),
            cs_vars(constraints_model(constraints@)).subset_of(cs_vars(cs0)),
            bindings_vars_in(subs_model(subs@), cs_vars(cs0)),
        decreases cs_vars(constraints_model(constraints@)).len(), cs_size(
            constraints_model(constraints@),
        ),
    {
        let ghost csm_pre = constraints_model(constraints@);
        let ghost sigma = subs_model(subs@);
        let pair = constraints.pop().unwrap();
        let ghost lm = pair.0@;
        let ghost rm = pair.1@;
        proof {
            assert(csm_pre[csm_pre.len() - 1] == (lm, rm));
            assert(constraints_model(constraints@) =~= csm_pre.drop_last());
        }
        if pair.0 == pair.1 {
            proof {
                lemma_step_equal(cs0, csm_pre, sigma);
            }
        } else {
            match (pair.0, pair.1) {
                (Term::Var(v), t) => {
                    if var_occurs(&v, &t) {
                        proof {
                            lemma_step_fail(cs0, csm_pre, sigma);
                        }
                        return None;
                    }
                    let sub = Subst { var: v, term: t };
                    rewrite_constraints(constraints, &sub);
                    subs.push(sub);
                    proof {
                        assert(subs_model(subs@) =~= sigma.push(SpecBinding {
                            var: lm->Var_0,
                            term: rm,
                        }));
                        lemma_step_bind(
                            cs0,
                            csm_pre,
                            sigma,
                            lm->Var_0,
                            rm,
                            constraints_model(constraints@),
                        );
                        assert(bindings_vars_in(subs_model(subs@), cs_vars(cs0)));
                    }
                }
                (t, Term::Var(v)) => {
                    if var_occurs(&v, &t) {
                        proof {
                            lemma_step_fail(cs0, csm_pre, sigma);
                        }
                        return None;
                    }
                    let sub = Subst { var: v, term: t };
                    rewrite_constraints(constraints, &sub);
                    subs.push(sub);
                    proof {
                        assert(subs_model(subs@) =~= sigma.push(SpecBinding {
                            var: rm->Var_0,
                            term: lm,
                        }));
                        lemma_step_bind(
                            cs0,
                            csm_pre,
                            sigma,
                            rm->Var_0,
                            lm,
                            constraints_model(constraints@),
                        );
                        assert(bindings_vars_in(subs_model(subs@), cs_vars(cs0)));
                    }
                }
                (Term::Const(_), _) | (_, Term::Const(_)) => {
                    proof {
                        lemma_step_fail(cs0, csm_pre, sigma);
                    }
                    return None;
                }
                (
                    Term::Combined { functor: f1, args: a1 },
                    Term::Combined { functor: f2, args: a2 },
                ) => {
                    if !string_eq(&f1, &f2) || a1.len() != a2.len() {
                        proof {
                            crate::expr::lemma_terms_model(a1@);
                            crate::expr::lemma_terms_model(a2@);
                            lemma_step_fail(cs0, csm_pre, sigma);
                        }
                        return None;
                    }
                    let ghost rest_len = constraints@.len() as int;
                    let ghost rest_vec = constraints@;
                    let mut k: usize = 0;
                    while k < a1.len()
                        invariant
                            k <= a1.len(),
                            a1@.len() == a2@.len(),
                            rest_len == rest_vec.len(),
                            constraints@.len() == rest_len + k,
                            forall|j: int| 0 <= j < rest_len ==> #[trigger] constraints@[j]
                                == rest_vec[j],
                            forall|j: int| 0 <= j < k ==> (#[trigger] constraints@[rest_len + j]).0@
                                == a1@[j]@ && constraints@[rest_len + j].1@ == a2@[j]@,
                        decreases a1@.len() - k,
                    {
                        constraints.push((a1[k].clone(), a2[k].clone()));
                        k = k + 1;
                    }
                    proof {
                        crate::expr::lemma_terms_model(a1@);
                        crate::expr::lemma_terms_model(a2@);
                        lemma_step_decompose(
                            cs0,
                            csm_pre,
                            sigma,
                            lm->Combined_functor,
                            lm->Combined_args,
                            rm->Combined_args,
                            constraints_model(constraints@),
                        );
                    }
                }
            }
        }
    }
    proof {
        let csm = constraints_model(constraints@);
        let sigma = subs_model(subs@);
        assert(csm =~= Seq::<(SpecTerm, SpecTerm)>::empty());
        assert(list_unifies(Seq::<SpecBinding>::empty(), csm));
        assert(list_unifies(sigma + Seq::<SpecBinding>::empty(), cs0));
        assert(sigma + Seq::<SpecBinding>::empty() =~= sigma);
    }
    Some(subs)
}

/// Any unifier that absorbs every binding of `sigma` factors through
/// `sigma`: applying `sigma` first changes nothing under that unifier.
pub proof fn lemma_most_general(theta: SpecSubstMap, sigma: Seq<SpecBinding>, t: SpecTerm)
    requires
        absorbed(theta, sigma),
    ensures
        map_apply(theta, apply_list(sigma, t)) == map_apply(theta, t),
    decreases sigma.len(),
{
    if sigma.len() > 0 {
        let b = sigma.first();
        assert(sigma[0] == b);
        lemma_map_absorb(theta, b, t);
        assert forall|i: int| 0 <= i < sigma.drop_first().len() implies map_apply(
            theta,
            SpecTerm::Var((#[trigger] sigma.drop_first()[i]).var),
        ) == map_apply(theta, sigma.drop_first()[i].term) by {
            assert(sigma.drop_first()[i] == sigma[i + 1]);
        }
        lemma_most_general(theta, sigma.drop_first(), apply_binding(b, t));
    }
}

/// `theta` agrees everywhere with `rho` applied after the bindings of
/// `sigma`.
pub open spec fn factors_through(
    theta: SpecSubstMap,
    rho: SpecSubstMap,
    sigma: Seq<SpecBinding>,
) -> bool {
    forall|t: SpecTerm| #[trigger] map_apply(theta, t) == map_apply(rho, apply_list(sigma, t))
}

/// Most generality, spelled out: a substitution map that absorbs the
/// bindings `unify` returned factors through them — some map (the
/// unifier itself) applied after the bindings agrees with it everywhere.
pub proof fn lemma_factors_through(theta: SpecSubstMap, sigma: Seq<SpecBinding>)
    requires
        absorbed(theta, sigma),
    ensures
        exists|rho: SpecSubstMap| #[trigger] factors_through(theta, rho, sigma),
{
    assert forall|t: SpecTerm| #[trigger] map_apply(theta, t) == map_apply(
        theta,
        apply_list(sigma, t),
    ) by {
        lemma_most_general(theta, sigma, t);
    }
    assert(factors_through(theta, theta, sigma));
}

/// If a variable does not occur in a term, and no binding of the list can
/// introduce it, it does not occur after applying the list either.
proof fn lemma_apply_list_absent(v: Seq<char>, subs: Seq<SpecBinding>, t: SpecTerm)
    requires
        !occurs(v, t),
        forall|j: int| 0 <= j < subs.len() ==> !occurs(v, (#[trigger] subs[j]).term),
    ensures
        !occurs(v, apply_list(subs, t)),
    decreases subs.len(),
{
    if subs.len() > 0 {
        let b = subs.first();
        assert(subs[0] == b);
        lemma_occurs_apply_binding(v, b, t);
        assert forall|j: int| 0 <= j < subs.drop_first().len() implies !occurs(
            v,
            (#[trigger] subs.drop_first()[j]).term,
        ) by {
            assert(subs.drop_first()[j] == subs[j + 1]);
        }
        lemma_apply_list_absent(v, subs.drop_first(), apply_binding(b, t));
    }
}

/// Applying an acyclic, triangular binding list eliminates every bound
/// variable from the result, in one pass.
pub proof fn lemma_apply_list_eliminates(subs: Seq<SpecBinding>, t: SpecTerm)
    requires
        acyclic(subs),
        triangular(subs),
    ensures
        forall|i: int| 0 <= i < subs.len() ==> !occurs(
            (#[trigger] subs[i]).var,
            apply_list(subs, t),
        ),
    decreases subs.len(),
{
    if subs.len() > 0 {
        let b = subs.first();
        assert(subs[0] == b);
        let rest = subs.drop_first();
        assert(forall|i: int| 0 <= i < rest.len() ==> #[trigger] rest[i] == subs[i + 1]);
        lemma_apply_list_eliminates(rest, apply_binding(b, t));
        assert forall|i: int| 0 <= i < subs.len() implies !occurs(
            (#[trigger] subs[i]).var,
            apply_list(subs, t),
        ) by {
            assert(apply_list(subs, t) == apply_list(rest, apply_binding(b, t)));
            if i == 0 {
                lemma_occurs_apply_binding(b.var, b, t);
                assert(!occurs(b.var, apply_binding(b, t)));
                assert forall|j: int| 0 <= j < rest.len() implies !occurs(
                    b.var,
                    (#[trigger] rest[j]).term,
                ) by {
                    assert(rest[j] == subs[j + 1]);
                }
                lemma_apply_list_absent(b.var, rest, apply_binding(b, t));
            } else {
                assert(rest[i - 1] == subs[i]);
                assert(!occurs(rest[i - 1].var, apply_list(rest, apply_binding(b, t))));
            }
        }
    }
}

/// Applying a binding list to a term in which none of its variables occur
/// changes nothing.
pub proof fn lemma_apply_list_id(subs: Seq<SpecBinding>, t: SpecTerm)
    requires
        forall|i: int| 0 <= i < subs.len() ==> !occurs((#[trigger] subs[i]).var, t),
    ensures
        apply_list(subs, t) == t,
    decreases subs.len(),
{
    if subs.len() > 0 {
        let b = subs.first();
        assert(subs[0] == b);
        lemma_apply_binding_id(b, t);
        assert forall|i: int| 0 <= i < subs.drop_first().len() implies !occurs(
            (#[trigger] subs.drop_first()[i]).var,
            t,
        ) by {
            assert(subs.drop_first()[i] == subs[i + 1]);
        }
        lemma_apply_list_id(subs.drop_first(), t);
    }
}

/// Applying an acyclic, triangular binding list twice is applying it once:
/// one pass already reaches the fixed point of iterated application.
pub proof fn lemma_apply_list_idempotent(subs: Seq<SpecBinding>, t: SpecTerm)
    requires
        acyclic(subs),
        triangular(subs),
    ensures
        apply_list(subs, apply_list(subs, t)) == apply_list(subs, t),
{
    lemma_apply_list_eliminates(subs, t);
    lemma_apply_list_id(subs, apply_list(subs, t));
}

/// A variable of a list-substituted term either occurred already or came
/// in with some binding's image.
pub proof fn lemma_occurs_apply_list(w: Seq<char>, subs: Seq<SpecBinding>, t: SpecTerm)
    requires
        occurs(w, apply_list(subs, t)),
    ensures
        occurs(w, t) || exists|k: int|
            0 <= k < subs.len() && occurs(w, (#[trigger] subs[k]).term),
    decreases subs.len(),
{
    if subs.len() > 0 {
        let b = subs.first();
        assert(subs[0] == b);
        let rest = subs.drop_first();
        lemma_occurs_apply_list(w, rest, apply_binding(b, t));
        if occurs(w, apply_binding(b, t)) {
            lemma_occurs_apply_binding(w, b, t);
            if !occurs(w, t) {
                assert(occurs(w, subs[0].term));
            }
        } else {
            let k = choose|k: int|
                0 <= k < rest.len() && occurs(w, (#[trigger] rest[k]).term);
            assert(rest[k] == subs[k + 1]);
            assert(occurs(w, subs[k + 1].term));
        }
    }
}

/// A map application leaves a term without free variables unchanged.
pub proof fn lemma_map_apply_ground(m: SpecSubstMap, t: SpecTerm)
    requires
        !crate::expr::spec_has_free_var(t),
    ensures
        map_apply(m, t) == t,
    decreases t,
{
    match t {
        SpecTerm::Const(_) => {}
        SpecTerm::Var(_) => {}
        SpecTerm::Combined { functor, args } => {
            lemma_map_apply_ground_seq(m, args);
        }
    }
}

proof fn lemma_map_apply_ground_seq(m: SpecSubstMap, args: Seq<SpecTerm>)
    requires
        !crate::expr::spec_has_free_var_seq(args),
    ensures
        map_apply_seq(m, args) == args,
    decreases args,
{
    if args.len() > 0 {
        lemma_map_apply_ground_seq(m, args.drop_last());
        lemma_map_apply_ground(m, args.last());
        assert(map_apply_seq(m, args) =~= args.drop_last().push(args.last()));
        assert(args.drop_last().push(args.last()) =~= args);
    }
}

/// A list application leaves a term without free variables unchanged.
pub proof fn lemma_apply_list_ground(subs: Seq<SpecBinding>, t: SpecTerm)
    requires
        !crate::expr::spec_has_free_var(t),
    ensures
        apply_list(subs, t) == t,
{
    crate::expr::lemma_ground_no_occurs(t);
    lemma_apply_list_id(subs, t);
}

/// When a list application grounds a term, it grounds each variable of it.
pub proof fn lemma_apply_list_grounds_vars(subs: Seq<SpecBinding>, t: SpecTerm, v: Seq<char>)
    requires
        occurs(v, t),
        !crate::expr::spec_has_free_var(apply_list(subs, t)),
    ensures
        !crate::expr::spec_has_free_var(apply_list(subs, SpecTerm::Var(v))),
    decreases t,
{
    match t {
        SpecTerm::Const(_) => {}
        SpecTerm::Var(_) => {}
        SpecTerm::Combined { functor, args } => {
            let k = lemma_occurs_in_seq_witness(v, args);
            lemma_apply_list_combined(subs, functor, args);
            lemma_apply_list_seq(subs, args);
            assert(apply_list_seq(subs, args)[k] == apply_list(subs, args[k]));
            assert(!crate::expr::spec_has_free_var(apply_list(subs, args[k]))) by {
                crate::expr::lemma_no_free_var_seq_index(apply_list_seq(subs, args), k);
            }
            lemma_apply_list_grounds_vars(subs, args[k], v);
        }
    }
}

/// The composition of two substitutions in list form: applying the result
/// is applying the first substitution, then the second.
pub fn compose(s1: &Vec<Subst>, s2: &Vec<Subst>) -> (r: Vec<Subst>)
    ensures
        subs_model(r@) == subs_model(s1@) + subs_model(s2@),
        forall|t: SpecTerm| #[trigger] apply_list(subs_model(r@), t) == apply_list(
            subs_model(s2@),
            apply_list(subs_model(s1@), t),
        ),
{
    let mut r: Vec<Subst> = Vec::new();
    let mut i: usize = 0;
    while i < s1.len()
        invariant
            i <= s1@.len(),
            r@.len() == i as int,
            forall|j: int| 0 <= j < i ==> #[trigger] r@[j]@ == s1@[j]@,
        decreases s1@.len() - i,
    {
        r.push(s1[i].clone());
        i = i + 1;
    }
    let mut k: usize = 0;
    while k < s2.len()
        invariant
            k <= s2@.len(),
            r@.len() == s1@.len() + k,
            forall|j: int| 0 <= j < s1@.len() ==> #[trigger] r@[j]@ == s1@[j]@,
            forall|j: int| 0 <= j < k ==> #[trigger] r@[s1@.len() + j]@ == s2@[j]@,
        decreases s2@.len() - k,
    {
        r.push(s2[k].clone());
        k = k + 1;
    }
    proof {
        assert forall|j: int| 0 <= j < r@.len() implies subs_model(r@)[j] == (subs_model(s1@)
            + subs_model(s2@))[j] by {
            if j < s1@.len() {
                assert(r@[j]@ == s1@[j]@);
            } else {
                assert(r@[s1@.len() + (j - s1@.len())]@ == s2@[j - s1@.len()]@);
            }
        }
        assert(subs_model(r@) =~= subs_model(s1@) + subs_model(s2@));
        assert forall|t: SpecTerm| #[trigger] apply_list(subs_model(r@), t) == apply_list(
            subs_model(s2@),
            apply_list(subs_model(s1@), t),
        ) by {
            lemma_apply_list_append(subs_model(s1@), subs_model(s2@), t);
        }
    }
    r
}

/// Finds the image of a variable: the first binding for it in the list, if
/// there is one.
pub open spec fn find_binding(v: Seq<char>, subs: Seq<SpecBinding>) -> Option<SpecTerm>
    decreases subs.len(),
{
    if subs.len() == 0 {
        Option::None
    } else if subs.first().var == v {
        Option::Some(subs.first().term)
    } else {
        find_binding(v, subs.drop_first())
    }
}

/// What `search` computes, with `fuel` bounding the number of variable
/// links followed on any path: constants stand, a bound variable is chased
/// through the list, an unbound variable stands for itself, and a compound
/// is resolved argument by argument.
pub open spec fn spec_search(t: SpecTerm, subs: Seq<SpecBinding>, fuel: nat) -> Option<SpecTerm>
    decreases fuel, t,
{
    match t {
        SpecTerm::Const(_) => Option::Some(t),
        SpecTerm::Var(v) => match find_binding(v, subs) {
            Option::None => Option::Some(t),
            Option::Some(u) => if fuel == 0 {
                Option::None
            } else {
                spec_search(u, subs, (fuel - 1) as nat)
            },
        },
        SpecTerm::Combined { functor, args } => match spec_search_seq(args, subs, fuel) {
            Option::None => Option::None,
            Option::Some(rs) => Option::Some(SpecTerm::Combined { functor, args: rs }),
        },
    }
}

/// `spec_search` over each term of a sequence; fails if any member fails.
pub open spec fn spec_search_seq(args: Seq<SpecTerm>, subs: Seq<SpecBinding>, fuel: nat) -> Option<
    Seq<SpecTerm>,
>
    decreases fuel, args,
{
    if args.len() == 0 {
        Option::Some(Seq::empty())
    } else {
        match (spec_search_seq(args.drop_last(), subs, fuel), spec_search(
            args.last(),
            subs,
            fuel,
        )) {
            (Option::Some(rs), Option::Some(r)) => Option::Some(rs.push(r)),
            _ => Option::None,
        }
    }
}

/// The model of an optional term.
pub open spec fn option_term_model(o: Option<Term>) -> Option<SpecTerm> {
    match o {
        Option::Some(t) => Option::Some(term_model(t)),
        Option::None => Option::None,
    }
}

/// The first binding for `v` in the list, if any, as a fresh term.
#[verifier::loop_isolation(false)]
pub(crate) fn find_image(v: &String, subs: &Vec<Subst>) -> (r: Option<Term>)
    ensures
        option_term_model(r) == find_binding(v@, subs_model(subs@)),
{
    let ghost model = subs_model(subs@);
    proof {
        assert(model.skip(0) =~= model);
    }
    let mut i: usize = 0;
    while i < subs.len()
        invariant
            i <= subs@.len(),
            model == subs_model(subs@),
            find_binding(v@, model) == find_binding(v@, model.skip(i as int)),
            forall|j: int| 0 <= j < i ==> (#[trigger] model[j]).var != v@,
        decreases subs@.len() - i,
    {
        proof {
            assert(model.skip(i as int).first() == model[i as int]);
            assert(model.skip(i as int).drop_first() =~= model.skip(i + 1));
        }
        if string_eq(&subs[i].var, v) {
            return Some(subs[i].term.clone());
        }
        i = i + 1;
    }
    proof {
        assert(model.skip(subs@.len() as int) =~= Seq::<SpecBinding>::empty());
    }
    None
}

/// `search` with an explicit bound on the number of variable links followed.
fn search_fuel(t: &Term, subs: &Vec<Subst>, fuel: usize) -> (r: Option<Term>)
    ensures
        option_term_model(r) == spec_search(t@, subs_model(subs@), fuel as nat),
    decreases fuel, *t,
{
    match t {
        Term::Const(_) => Some(t.clone()),
        Term::Var(v) => {
            match find_image(v, subs) {
                None => Some(t.clone()),
                Some(u) => {
                    if fuel == 0 {
                        None
                    } else {
                        search_fuel(&u, subs, fuel - 1)
                    }
                }
            }
        }
        Term::Combined { functor, args } => {
            match search_fuel_terms(args, subs, fuel) {
                None => None,
                Some(rs) => {
                    let r = Term::Combined { functor: functor.clone(), args: rs };
                    proof {
                        assert(r@ == spec_search(t@, subs_model(subs@), fuel as nat)->Some_0);
                    }
                    Some(r)
                }
            }
        }
    }
}

/// `search_fuel` over each term of a list.
#[verifier::loop_isolation(false)]
fn search_fuel_terms(ts: &Vec<Term>, subs: &Vec<Subst>, fuel: usize) -> (r: Option<Vec<Term>>)
    ensures
        (match r {
            Option::Some(rs) => spec_search_seq(terms_model(ts@), subs_model(subs@), fuel as nat)
                matches Option::Some(ss) && ss == terms_model(rs@),
            Option::None => spec_search_seq(terms_model(ts@), subs_model(subs@), fuel as nat)
                is None,
        }),
    decreases fuel, ts@,
{
    let ghost ms = terms_model(ts@);
    proof {
        crate::expr::lemma_terms_model(ts@);
    }
    let mut rs: Vec<Term> = Vec::new();
    let mut i: usize = 0;
    proof {
        assert(ms.take(0) =~= Seq::<SpecTerm>::empty());
        assert(terms_model(rs@) =~= Seq::<SpecTerm>::empty());
    }
    while i < ts.len()
        invariant
            i <= ts@.len(),
            ms == terms_model(ts@),
            ms.len() == ts@.len(),
            spec_search_seq(ms.take(i as int), subs_model(subs@), fuel as nat) matches
                Option::Some(ss) && ss == terms_model(rs@),
        decreases ts@.len() - i,
    {
        match search_fuel(&ts[i], subs, fuel) {
            None => {
                proof {
                    lemma_spec_search_seq_fail(ms, subs_model(subs@), fuel as nat, i as int);
                }
                return None;
            }
            Some(rt) => {
                let ghost rt_m = rt@;
                let ghost rs_old = rs@;
                rs.push(rt);
                proof {
                    assert(ms.take(i + 1).drop_last() =~= ms.take(i as int));
                    assert(ms.take(i + 1).last() == ms[i as int]);
                    assert(spec_search(ms[i as int], subs_model(subs@), fuel as nat)
                        == Option::Some(rt_m));
                    assert(rs@.drop_last() =~= rs_old);
                    assert(terms_model(rs@) == terms_model(rs@.drop_last()).push(rs@.last()@));
                    assert(terms_model(rs@) == terms_model(rs_old).push(rt_m));
                    assert(spec_search_seq(ms.take(i + 1), subs_model(subs@), fuel as nat)
                        == Option::Some(terms_model(rs@)));
                }
            }
        }
        i = i + 1;
    }
    proof {
        assert(ms.take(ts@.len() as int) =~= ms);
    }
    Some(rs)
}

/// If searching one member fails, searching the whole sequence fails.
proof fn lemma_spec_search_seq_fail(ms: Seq<SpecTerm>, subs: Seq<SpecBinding>, fuel: nat, i: int)
    requires
        0 <= i < ms.len(),
        spec_search(ms[i], subs, fuel) is None,
    ensures
        spec_search_seq(ms, subs, fuel) is None,
    decreases ms.len(),
{
    if i < ms.len() - 1 {
        assert(ms.drop_last()[i] == ms[i]);
        lemma_spec_search_seq_fail(ms.drop_last(), subs, fuel, i);
    }
}

/// Walks a term to its value under a substitution list: a bound variable is
/// chased link by link to its root, and a compound is resolved argument by
/// argument. Unbound variables stand for themselves. A link budget of one
/// per binding covers every chain a unifier of this crate can produce; an
/// exhausted budget reports failure.
pub fn search(t: &Term, subs: &Vec<Subst>) -> (r: Option<Term>)
    ensures
        option_term_model(r) == spec_search(t@, subs_model(subs@), subs@.len() as nat),
{
    search_fuel(t, subs, subs.len())
}

/// The composition of two substitution maps: applying it is applying
/// `m1`, then `m2`.
pub open spec fn map_compose(m1: SpecSubstMap, m2: SpecSubstMap) -> SpecSubstMap {
    Map::new(
        |v: Seq<char>| m1.dom().contains(v) || m2.dom().contains(v),
        |v: Seq<char>| if m1.dom().contains(v) {
            map_apply(m2, m1[v])
        } else {
            m2[v]
        },
    )
}

/// Applying a composition of maps is applying one, then the other.
pub proof fn lemma_map_compose(m1: SpecSubstMap, m2: SpecSubstMap, t: SpecTerm)
    ensures
        map_apply(map_compose(m1, m2), t) == map_apply(m2, map_apply(m1, t)),
    decreases t,
{
    match t {
        SpecTerm::Const(_) => {}
        SpecTerm::Var(_) => {}
        SpecTerm::Combined { functor, args } => {
            lemma_map_compose_seq(m1, m2, args);
        }
    }
}

proof fn lemma_map_compose_seq(m1: SpecSubstMap, m2: SpecSubstMap, args: Seq<SpecTerm>)
    ensures
        map_apply_seq(map_compose(m1, m2), args) == map_apply_seq(m2, map_apply_seq(m1, args)),
    decreases args,
{
    if args.len() > 0 {
        lemma_map_compose_seq(m1, m2, args.drop_last());
        lemma_map_compose(m1, m2, args.last());
        assert(map_apply_seq(m1, args).drop_last() == map_apply_seq(m1, args.drop_last()));
        assert(map_apply_seq(m1, args).last() == map_apply(m1, args.last()));
        assert(map_apply_seq(map_compose(m1, m2), args) =~= map_apply_seq(
            m2,
            map_apply_seq(m1, args),
        ));
    }
}

/// The map that does nothing.
pub proof fn lemma_map_apply_empty(t: SpecTerm)
    ensures
        map_apply(Map::empty(), t) == t,
    decreases t,
{
    match t {
        SpecTerm::Const(_) => {}
        SpecTerm::Var(_) => {}
        SpecTerm::Combined { functor, args } => {
            lemma_map_apply_empty_seq(args);
        }
    }
}

proof fn lemma_map_apply_empty_seq(args: Seq<SpecTerm>)
    ensures
        map_apply_seq(Map::empty(), args) == args,
    decreases args,
{
    if args.len() > 0 {
        lemma_map_apply_empty_seq(args.drop_last());
        lemma_map_apply_empty(args.last());
        assert(map_apply_seq(Map::<Seq<char>, SpecTerm>::empty(), args) =~= args.drop_last().push(
            args.last(),
        ));
    }
}

/// A single binding, read as a substitution map.
pub open spec fn binding_as_map(b: SpecBinding) -> SpecSubstMap {
    Map::empty().insert(b.var, b.term)
}

/// A binding applies the same way as its map.
pub proof fn lemma_binding_as_map(b: SpecBinding, t: SpecTerm)
    ensures
        map_apply(binding_as_map(b), t) == apply_binding(b, t),
    decreases t,
{
    match t {
        SpecTerm::Const(_) => {}
        SpecTerm::Var(_) => {}
        SpecTerm::Combined { functor, args } => {
            lemma_binding_as_map_seq(b, args);
        }
    }
}

proof fn lemma_binding_as_map_seq(b: SpecBinding, args: Seq<SpecTerm>)
    ensures
        map_apply_seq(binding_as_map(b), args) == apply_binding_seq(b, args),
    decreases args,
{
    if args.len() > 0 {
        lemma_binding_as_map_seq(b, args.drop_last());
        lemma_binding_as_map(b, args.last());
        assert(map_apply_seq(binding_as_map(b), args) =~= apply_binding_seq(b, args));
    }
}

/// A binding list, read as a single substitution map: the first binding
/// composed with the rest.
pub open spec fn list_as_map(subs: Seq<SpecBinding>) -> SpecSubstMap
    decreases subs.len(),
{
    if subs.len() == 0 {
        Map::empty()
    } else {
        map_compose(binding_as_map(subs.first()), list_as_map(subs.drop_first()))
    }
}

/// A binding list applies the same way as its map.
pub proof fn lemma_list_as_map(subs: Seq<SpecBinding>, t: SpecTerm)
    ensures
        map_apply(list_as_map(subs), t) == apply_list(subs, t),
    decreases subs.len(),
{
    if subs.len() == 0 {
        lemma_map_apply_empty(t);
    } else {
        lemma_map_compose(binding_as_map(subs.first()), list_as_map(subs.drop_first()), t);
        lemma_binding_as_map(subs.first(), t);
        lemma_list_as_map(subs.drop_first(), apply_binding(subs.first(), t));
    }
}

/// The bindings of a list, read as a simultaneous substitution map: each
/// variable goes to its first image in the list.
pub open spec fn bindings_map(subs: Seq<SpecBinding>) -> SpecSubstMap {
    Map::new(
        |v: Seq<char>| find_binding(v, subs) is Some,
        |v: Seq<char>| find_binding(v, subs)->Some_0,
    )
}

/// When the k-th binding is the first one for `v`, it is what the list maps
/// `v` to.
pub proof fn lemma_find_binding_indexed(v: Seq<char>, subs: Seq<SpecBinding>, k: int)
    requires
        0 <= k < subs.len(),
        subs[k].var == v,
        forall|j: int| 0 <= j < k ==> (#[trigger] subs[j]).var != v,
    ensures
        find_binding(v, subs) == Option::Some(subs[k].term),
    decreases k,
{
    if k == 0 {
        assert(subs.first() == subs[0]);
    } else {
        assert(subs.first() == subs[0]);
        assert(subs[0].var != v);
        assert forall|j: int| 0 <= j < k - 1 implies (#[trigger] subs.drop_first()[j]).var
            != v by {
            assert(subs.drop_first()[j] == subs[j + 1]);
        }
        assert(subs.drop_first()[k - 1] == subs[k]);
        lemma_find_binding_indexed(v, subs.drop_first(), k - 1);
    }
}

/// When there is no binding for `v`, the list maps `v` to nothing.
pub proof fn lemma_find_binding_none(v: Seq<char>, subs: Seq<SpecBinding>)
    requires
        forall|j: int| 0 <= j < subs.len() ==> (#[trigger] subs[j]).var != v,
    ensures
        find_binding(v, subs) is None,
    decreases subs.len(),
{
    if subs.len() > 0 {
        assert(subs.first() == subs[0]);
        assert forall|j: int| 0 <= j < subs.drop_first().len() implies (#[trigger] subs.drop_first(
        )[j]).var != v by {
            assert(subs.drop_first()[j] == subs[j + 1]);
        }
        lemma_find_binding_none(v, subs.drop_first());
    }
}

/// After a simultaneous substitution that covers every variable of the
/// term, each variable of the result comes from some image.
pub proof fn lemma_occurs_map_apply_covered(w: Seq<char>, m: SpecSubstMap, t: SpecTerm)
    requires
        forall|v: Seq<char>| occurs(v, t) ==> m.dom().contains(v),
        occurs(w, map_apply(m, t)),
    ensures
        exists|v: Seq<char>| occurs(v, t) && m.dom().contains(v) && occurs(w, #[trigger] m[v]),
    decreases t,
{
    match t {
        SpecTerm::Const(_) => {}
        SpecTerm::Var(v0) => {
            assert(occurs(v0, t));
            assert(occurs(w, m[v0]));
        }
        SpecTerm::Combined { functor, args } => {
            lemma_map_apply_seq(m, args);
            let k = lemma_occurs_in_seq_witness(w, map_apply_seq(m, args));
            assert(map_apply_seq(m, args)[k] == map_apply(m, args[k]));
            assert forall|v: Seq<char>| occurs(v, args[k]) implies m.dom().contains(v) by {
                lemma_occurs_in_seq_index(v, args, k);
                assert(occurs(v, t));
            }
            lemma_occurs_map_apply_covered(w, m, args[k]);
            let v = choose|v: Seq<char>|
                occurs(v, args[k]) && m.dom().contains(v) && occurs(w, #[trigger] m[v]);
            lemma_occurs_in_seq_index(v, args, k);
            assert(occurs(v, t) && m.dom().contains(v) && occurs(w, m[v]));
        }
    }
}

} // verus!
