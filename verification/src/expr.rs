//! The term algebra: constants, variables and compound terms, together with
//! the spec-level model that contracts are stated over.

use vstd::prelude::*;

use crate::util::{i32_to_decimal, lemma_dec_digits_first, lemma_dec_digits_injective,
    spec_int_decimal, string_eq};

use crate::unifier::{acyclic, apply_binding, apply_binding_seq, apply_list, bindings_map,
    find_binding, find_image, lemma_apply_binding_seq, lemma_apply_list_append,
    lemma_apply_list_eliminates, lemma_apply_list_id, lemma_apply_list_single,
    lemma_find_binding_indexed, lemma_find_binding_none, lemma_map_apply_seq,
    lemma_occurs_map_apply_covered, map_apply, map_apply_seq, subs_model, triangular, SpecBinding,
    SpecSubstMap, Subst};

verus! {

broadcast use vstd::std_specs::vec::axiom_vec_index_decreases;

/// Spec-level model of a constant.
pub enum SpecConstant {
    Int(int),
    Str(Seq<char>),
    Name(Seq<char>),
}

/// Spec-level model of a term.
#[verifier::ext_equal]
pub enum SpecTerm {
    Const(SpecConstant),
    Var(Seq<char>),
    Combined { functor: Seq<char>, args: Seq<SpecTerm> },
}

/// A constant: a bounded integer, a string literal, or an atom.
#[derive(Debug, Eq, Hash)]
pub enum Constant {
    Int(i32),
    Str(String),
    Name(String),
}

/// A first-order term: constant, variable, or compound.
#[derive(Debug, Eq, Hash)]
pub enum Term {
    Const(Constant),
    Var(String),
    Combined { functor: String, args: Vec<Term> },
}

/// The model of a term.
pub open spec fn term_model(t: Term) -> SpecTerm
    decreases t,
{
    match t {
        Term::Const(c) => SpecTerm::Const(c@),
        Term::Var(v) => SpecTerm::Var(v@),
        Term::Combined { functor, args } => SpecTerm::Combined {
            functor: functor@,
            args: terms_model(args@),
        },
    }
}

/// The models of a sequence of terms, element by element.
pub open spec fn terms_model(ts: Seq<Term>) -> Seq<SpecTerm>
    decreases ts,
{
    if ts.len() == 0 {
        Seq::empty()
    } else {
        terms_model(ts.drop_last()).push(term_model(ts.last()))
    }
}

/// `terms_model` is the element-by-element map of `term_model`.
pub broadcast proof fn lemma_terms_model(ts: Seq<Term>)
    ensures
        #[trigger] terms_model(ts).len() == ts.len(),
        forall|i: int| 0 <= i < ts.len() ==> terms_model(ts)[i] == term_model(ts[i]),
    decreases ts,
{
    if ts.len() > 0 {
        lemma_terms_model(ts.drop_last());
    }
}

/// A variable identifier.
pub type Variable = String;

/// The models of a sequence of identifiers.
pub open spec fn strings_model(ss: Seq<String>) -> Seq<Seq<char>> {
    ss.map_values(|s: String| s@)
}

/// Does variable `v` occur (free) in `t`?
pub open spec fn occurs(v: Seq<char>, t: SpecTerm) -> bool
    decreases t,
{
    match t {
        SpecTerm::Const(_) => false,
        SpecTerm::Var(w) => w == v,
        SpecTerm::Combined { functor, args } => occurs_in_seq(v, args),
    }
}

/// Does variable `v` occur in any term of `args`?
pub open spec fn occurs_in_seq(v: Seq<char>, args: Seq<SpecTerm>) -> bool
    decreases args,
{
    if args.len() == 0 {
        false
    } else {
        occurs_in_seq(v, args.drop_last()) || occurs(v, args.last())
    }
}

/// The free variables of `t`, in depth-first left-to-right order,
/// with multiplicity.
pub open spec fn spec_free_vars(t: SpecTerm) -> Seq<Seq<char>>
    decreases t,
{
    match t {
        SpecTerm::Const(_) => Seq::empty(),
        SpecTerm::Var(v) => seq![v],
        SpecTerm::Combined { functor, args } => spec_free_vars_seq(args),
    }
}

/// The free variables of a sequence of terms, concatenated in order.
pub open spec fn spec_free_vars_seq(args: Seq<SpecTerm>) -> Seq<Seq<char>>
    decreases args,
{
    if args.len() == 0 {
        Seq::empty()
    } else {
        spec_free_vars_seq(args.drop_last()) + spec_free_vars(args.last())
    }
}

/// A variable is in the free-variable list exactly when it occurs in the term.
pub proof fn lemma_free_vars_occurs(t: SpecTerm)
    ensures
        forall|v: Seq<char>| #[trigger] spec_free_vars(t).contains(v) <==> occurs(v, t),
    decreases t,
{
    match t {
        SpecTerm::Const(_) => {}
        SpecTerm::Var(v) => {
            assert forall|w: Seq<char>| #[trigger]
                spec_free_vars(t).contains(w) <==> occurs(w, t) by {
                if occurs(w, t) {
                    assert(spec_free_vars(t)[0] == w);
                }
            }
        }
        SpecTerm::Combined { functor, args } => {
            lemma_free_vars_occurs_seq(args);
            assert forall|v: Seq<char>| #[trigger]
                spec_free_vars(t).contains(v) <==> occurs(v, t) by {
                assert(spec_free_vars(t) == spec_free_vars_seq(args));
                assert(spec_free_vars_seq(args).contains(v) <==> occurs_in_seq(v, args));
            }
        }
    }
}

proof fn lemma_free_vars_occurs_seq(args: Seq<SpecTerm>)
    ensures
        forall|v: Seq<char>| #[trigger]
            spec_free_vars_seq(args).contains(v) <==> occurs_in_seq(v, args),
    decreases args,
{
    if args.len() > 0 {
        lemma_free_vars_occurs_seq(args.drop_last());
        lemma_free_vars_occurs(args.last());
        assert forall|v: Seq<char>| #[trigger]
            spec_free_vars_seq(args).contains(v) <==> occurs_in_seq(v, args) by {
            let pre = spec_free_vars_seq(args.drop_last());
            let post = spec_free_vars(args.last());
            if spec_free_vars_seq(args).contains(v) {
                let i = choose|i: int|
                    0 <= i < spec_free_vars_seq(args).len() && spec_free_vars_seq(args)[i] == v;
                if i < pre.len() {
                    assert(pre.contains(v));
                } else {
                    assert(post[i - pre.len()] == v);
                    assert(post.contains(v));
                }
            }
            if occurs_in_seq(v, args) {
                if occurs_in_seq(v, args.drop_last()) {
                    assert(pre.contains(v));
                    let i = choose|i: int| 0 <= i < pre.len() && pre[i] == v;
                    assert(spec_free_vars_seq(args)[i] == v);
                } else {
                    assert(occurs(v, args.last()));
                    assert(post.contains(v));
                    let i = choose|i: int| 0 <= i < post.len() && post[i] == v;
                    assert(spec_free_vars_seq(args)[pre.len() + i] == v);
                }
            }
        }
    }
}

impl View for Constant {
    type V = SpecConstant;

    open spec fn view(&self) -> SpecConstant {
        match self {
            Constant::Int(i) => SpecConstant::Int(*i as int),
            Constant::Str(s) => SpecConstant::Str(s@),
            Constant::Name(s) => SpecConstant::Name(s@),
        }
    }
}

impl View for Term {
    type V = SpecTerm;

    open spec fn view(&self) -> SpecTerm {
        term_model(*self)
    }
}

impl PartialEq for Constant {
    /// Structural equality: same kind and same payload.
    fn eq(&self, other: &Constant) -> (r: bool) {
        match (self, other) {
            (Constant::Int(a), Constant::Int(b)) => *a == *b,
            (Constant::Str(a), Constant::Str(b)) => string_eq(a, b),
            (Constant::Name(a), Constant::Name(b)) => string_eq(a, b),
            _ => false,
        }
    }
}

impl vstd::std_specs::cmp::PartialEqSpecImpl for Constant {
    open spec fn obeys_eq_spec() -> bool {
        true
    }

    open spec fn eq_spec(&self, other: &Constant) -> bool {
        self@ == other@
    }
}

impl PartialEq for Term {
    /// Structural equality: equal kind, payload, functor, arity and
    /// positional arguments.
    fn eq(&self, other: &Term) -> (r: bool)
        decreases *self,
    {
        match (self, other) {
            (Term::Const(a), Term::Const(b)) => a == b,
            (Term::Var(a), Term::Var(b)) => string_eq(a, b),
            (
                Term::Combined { functor: f1, args: a1 },
                Term::Combined { functor: f2, args: a2 },
            ) => {
                let fe = string_eq(f1, f2);
                let ae = terms_eq(a1, a2);
                fe && ae
            }
            _ => false,
        }
    }
}

impl vstd::std_specs::cmp::PartialEqSpecImpl for Term {
    open spec fn obeys_eq_spec() -> bool {
        true
    }

    open spec fn eq_spec(&self, other: &Term) -> bool {
        self@ == other@
    }
}

/// Structural equality of two term lists, position by position.
fn terms_eq(a1: &Vec<Term>, a2: &Vec<Term>) -> (r: bool)
    ensures
        r == (terms_model(a1@) == terms_model(a2@)),
    decreases a1@,
{
    proof {
        lemma_terms_model(a1@);
        lemma_terms_model(a2@);
    }
    if a1.len() != a2.len() {
        proof {
            assert(terms_model(a1@).len() != terms_model(a2@).len());
        }
        return false;
    }
    let ghost m1 = terms_model(a1@);
    let ghost m2 = terms_model(a2@);
    let mut eq_so_far = true;
    let mut i: usize = 0;
    while i < a1.len()
        invariant
            i <= a1.len(),
            a1@.len() == a2@.len(),
            m1 == terms_model(a1@),
            m2 == terms_model(a2@),
            m1.len() == a1@.len(),
            m2.len() == a2@.len(),
            eq_so_far == (forall|j: int| 0 <= j < i ==> m1[j] == m2[j]),
        decreases a1@.len() - i,
    {
        proof {
            lemma_terms_model(a1@);
            lemma_terms_model(a2@);
        }
        let e = a1[i] == a2[i];
        proof {
            assert(m1[i as int] == term_model(a1@[i as int]));
            assert(m2[i as int] == term_model(a2@[i as int]));
        }
        eq_so_far = eq_so_far && e;
        i = i + 1;
    }
    if eq_so_far {
        proof {
            assert(m1 =~= m2);
        }
        true
    } else {
        proof {
            assert(m1 != m2);
        }
        false
    }
}

impl Clone for Constant {
    /// Copy; the copy has the same model as the original.
    fn clone(&self) -> (r: Constant)
        ensures
            r@ == self@,
    {
        match self {
            Constant::Int(i) => Constant::Int(*i),
            Constant::Str(s) => Constant::Str(s.clone()),
            Constant::Name(s) => Constant::Name(s.clone()),
        }
    }
}

/// Does a term have any free variable?
pub open spec fn spec_has_free_var(t: SpecTerm) -> bool
    decreases t,
{
    match t {
        SpecTerm::Const(_) => false,
        SpecTerm::Var(_) => true,
        SpecTerm::Combined { functor, args } => spec_has_free_var_seq(args),
    }
}

/// Does any term of `args` have a free variable?
pub open spec fn spec_has_free_var_seq(args: Seq<SpecTerm>) -> bool
    decreases args,
{
    if args.len() == 0 {
        false
    } else {
        spec_has_free_var_seq(args.drop_last()) || spec_has_free_var(args.last())
    }
}

/// A term without free variables has no occurring variable at all.
pub proof fn lemma_ground_no_occurs(t: SpecTerm)
    requires
        !spec_has_free_var(t),
    ensures
        forall|v: Seq<char>| !occurs(v, t),
    decreases t,
{
    match t {
        SpecTerm::Const(_) => {}
        SpecTerm::Var(_) => {}
        SpecTerm::Combined { functor, args } => {
            lemma_ground_no_occurs_seq(args);
            assert forall|v: Seq<char>| !occurs(v, t) by {
                assert(!occurs_in_seq(v, args));
            }
        }
    }
}

proof fn lemma_ground_no_occurs_seq(args: Seq<SpecTerm>)
    requires
        !spec_has_free_var_seq(args),
    ensures
        forall|v: Seq<char>| !occurs_in_seq(v, args),
    decreases args,
{
    if args.len() > 0 {
        lemma_ground_no_occurs_seq(args.drop_last());
        lemma_ground_no_occurs(args.last());
        assert forall|v: Seq<char>| !occurs_in_seq(v, args) by {
            assert(!occurs_in_seq(v, args.drop_last()));
            assert(!occurs(v, args.last()));
        }
    }
}

/// A term without free variables has an empty free-variable list.
pub proof fn lemma_ground_free_vars_empty(t: SpecTerm)
    requires
        !spec_has_free_var(t),
    ensures
        spec_free_vars(t).len() == 0,
{
    lemma_ground_no_occurs(t);
    lemma_free_vars_occurs(t);
    if spec_free_vars(t).len() > 0 {
        assert(spec_free_vars(t).contains(spec_free_vars(t)[0]));
    }
}

/// A compound without free variables has none in any argument.
pub proof fn lemma_no_free_var_seq_index(args: Seq<SpecTerm>, k: int)
    requires
        !spec_has_free_var_seq(args),
        0 <= k < args.len(),
    ensures
        !spec_has_free_var(args[k]),
    decreases args,
{
    if k < args.len() - 1 {
        lemma_no_free_var_seq_index(args.drop_last(), k);
        assert(args.drop_last()[k] == args[k]);
    }
}

impl Term {
    /// The free variables of this term, depth-first, left to right,
    /// with multiplicity.
    pub fn free_vars(&self) -> (r: Vec<Variable>)
        ensures
            strings_model(r@) == spec_free_vars(self@),
        decreases *self,
    {
        match self {
            Term::Const(_) => {
                let r: Vec<Variable> = Vec::new();
                proof {
                    assert(strings_model(r@) =~= spec_free_vars(self@));
                }
                r
            }
            Term::Var(v) => {
                let mut r: Vec<Variable> = Vec::new();
                r.push(v.clone());
                proof {
                    assert(strings_model(r@) =~= spec_free_vars(self@));
                }
                r
            }
            Term::Combined { functor, args } => Term::free_vars_sum(args),
        }
    }

    /// The free variables of all terms of `terms`, concatenated in order.
    pub fn free_vars_sum(terms: &Vec<Term>) -> (r: Vec<Variable>)
        ensures
            strings_model(r@) == spec_free_vars_seq(terms_model(terms@)),
        decreases terms@,
    {
        let ghost ms = terms_model(terms@);
        proof {
            lemma_terms_model(terms@);
        }
        let mut r: Vec<Variable> = Vec::new();
        let mut i: usize = 0;
        proof {
            assert(strings_model(r@) =~= spec_free_vars_seq(ms.take(0)));
        }
        while i < terms.len()
            invariant
                i <= terms.len(),
                ms == terms_model(terms@),
                strings_model(r@) == spec_free_vars_seq(ms.take(i as int)),
            decreases terms@.len() - i,
        {
            let mut fv = terms[i].free_vars();
            proof {
                lemma_terms_model(terms@);
                assert(ms.take(i + 1).drop_last() =~= ms.take(i as int));
                assert(ms.take(i + 1).last() == ms[i as int]);
                assert(strings_model(r@ + fv@) =~= strings_model(r@) + strings_model(fv@));
            }
            r.append(&mut fv);
            i = i + 1;
        }
        proof {
            assert(ms.take(terms@.len() as int) =~= ms);
        }
        r
    }

    /// True exactly when some leaf of this term is a variable.
    pub fn has_free_var(&self) -> (r: bool)
        ensures
            r == spec_has_free_var(self@),
        decreases *self,
    {
        match self {
            Term::Const(_) => false,
            Term::Var(_) => true,
            Term::Combined { functor, args } => terms_have_free_var(args),
        }
    }
}

/// True exactly when some term of `terms` has a free variable.
fn terms_have_free_var(terms: &Vec<Term>) -> (r: bool)
    ensures
        r == spec_has_free_var_seq(terms_model(terms@)),
    decreases terms@,
{
    let ghost ms = terms_model(terms@);
    let mut found = false;
    let mut i: usize = 0;
    proof {
        assert(ms.take(0) =~= Seq::<SpecTerm>::empty());
    }
    while i < terms.len()
        invariant
            i <= terms.len(),
            ms == terms_model(terms@),
            found == spec_has_free_var_seq(ms.take(i as int)),
        decreases terms@.len() - i,
    {
        if terms[i].has_free_var() {
            found = true;
        }
        proof {
            lemma_terms_model(terms@);
            assert(ms.take(i + 1).drop_last() =~= ms.take(i as int));
            assert(ms.take(i + 1).last() == ms[i as int]);
        }
        i = i + 1;
    }
    proof {
        lemma_terms_model(terms@);
        assert(ms.take(terms@.len() as int) =~= ms);
    }
    found
}

impl Term {
    /// One-pass application of a single binding: every free occurrence of
    /// `map.var` in this term is replaced by `map.term`; the image is not
    /// re-expanded within this call.
    pub fn subst(&self, map: &Subst) -> (r: Term)
        ensures
            r@ == apply_binding(map@, self@),
        decreases *self,
    {
        match self {
            Term::Const(_) => self.clone(),
            Term::Var(v) => {
                if *v == map.var {
                    map.term.clone()
                } else {
                    self.clone()
                }
            }
            Term::Combined { functor, args } => {
                let new_args = subst_terms(args, map);
                let r = Term::Combined { functor: functor.clone(), args: new_args };
                proof {
                    lemma_terms_model(new_args@);
                    lemma_terms_model(args@);
                    lemma_apply_binding_seq(map@, terms_model(args@));
                    assert(terms_model(new_args@) =~= apply_binding_seq(map@, terms_model(args@)));
                    assert(r@ =~= apply_binding(map@, self@));
                }
                r
            }
        }
    }

    /// Application of a whole list of bindings, first entry first.
    pub fn subst_all(&self, subs: &Vec<Subst>) -> (r: Term)
        ensures
            r@ == apply_list(subs_model(subs@), self@),
    {
        let ghost model = subs_model(subs@);
        let mut r = self.clone();
        let mut i: usize = 0;
        while i < subs.len()
            invariant
                i <= subs.len(),
                model == subs_model(subs@),
                r@ == apply_list(model.take(i as int), self@),
            decreases subs@.len() - i,
        {
            let r2 = r.subst(&subs[i]);
            proof {
                assert(model.take(i as int) + seq![model[i as int]] =~= model.take(i + 1));
                lemma_apply_list_append(model.take(i as int), seq![model[i as int]], self@);
                lemma_apply_list_single(model[i as int], r@);
                assert(subs@[i as int]@ == model[i as int]);
                assert(r2@ == apply_list(model.take(i + 1), self@));
            }
            r = r2;
            i = i + 1;
        }
        proof {
            assert(model.take(subs@.len() as int) =~= model);
        }
        r
    }
}

impl Term {
    /// Applies a substitution list repeatedly until the result no longer
    /// changes. A substitution produced by the unifier of this crate is
    /// acyclic and triangular, and for such a list one pass already reaches
    /// the fixed point: no bound variable survives it.
    pub fn apply_iterated(&self, subs: &Vec<Subst>) -> (r: Term)
        requires
            acyclic(subs_model(subs@)),
            triangular(subs_model(subs@)),
        ensures
            r@ == apply_list(subs_model(subs@), self@),
            apply_list(subs_model(subs@), r@) == r@,
            forall|i: int| 0 <= i < subs@.len() ==> !occurs(
                (#[trigger] subs_model(subs@)[i]).var,
                r@,
            ),
    {
        let ghost model = subs_model(subs@);
        proof {
            lemma_apply_list_eliminates(model, self@);
        }
        let mut cur = self.subst_all(subs);
        proof {
            lemma_apply_list_id(model, cur@);
        }
        loop
            invariant
                cur@ == apply_list(model, self@),
                apply_list(model, cur@) == cur@,
                model == subs_model(subs@),
                acyclic(model),
                triangular(model),
            decreases 0int,
        {
            let next = cur.subst_all(subs);
            if next == cur {
                proof {
                    lemma_apply_list_eliminates(model, self@);
                }
                return cur;
            }
            proof {
                assert(false);
            }
            cur = next;
        }
    }
}

/// One-pass application of a single binding to each term of a list.
fn subst_terms(ts: &Vec<Term>, map: &Subst) -> (r: Vec<Term>)
    ensures
        r@.len() == ts@.len(),
        forall|i: int| 0 <= i < ts@.len() ==> r@[i]@ == apply_binding(map@, ts@[i]@),
    decreases ts@,
{
    let mut r: Vec<Term> = Vec::new();
    let mut i: usize = 0;
    while i < ts.len()
        invariant
            i <= ts.len(),
            r@.len() == i as int,
            forall|j: int| 0 <= j < i ==> r@[j]@ == apply_binding(map@, ts@[j]@),
        decreases ts@.len() - i,
    {
        r.push(ts[i].subst(map));
        i = i + 1;
    }
    r
}

/// Spec-level model of a clause.
#[verifier::ext_equal]
pub struct SpecRule {
    pub lhs: SpecTerm,
    pub rhs: Seq<SpecTerm>,
}

/// A Horn clause: a head and a body of goals. A fact is a clause with an
/// empty body.
#[derive(Debug)]
pub struct Rule {
    pub lhs: Term,
    pub rhs: Vec<Term>,
}

impl View for Rule {
    type V = SpecRule;

    open spec fn view(&self) -> SpecRule {
        SpecRule { lhs: self.lhs@, rhs: terms_model(self.rhs@) }
    }
}

impl Clone for Rule {
    /// Deep copy; the copy has the same model as the original.
    fn clone(&self) -> (r: Rule)
        ensures
            r@ == self@,
    {
        let r = Rule { lhs: self.lhs.clone(), rhs: clone_terms(&self.rhs) };
        proof {
            lemma_terms_model(r.rhs@);
            lemma_terms_model(self.rhs@);
            assert(terms_model(r.rhs@) =~= terms_model(self.rhs@));
            assert(r@ =~= self@);
        }
        r
    }
}

/// Spec-level model of a parsed query.
pub enum SpecQuery {
    File(Seq<char>),
    Terms(Seq<SpecTerm>),
}

/// A parsed query: either a clause file to load or a list of goals to
/// prove.
#[derive(Debug)]
pub enum Query {
    File(String),
    Terms(Vec<Term>),
}

impl View for Query {
    type V = SpecQuery;

    open spec fn view(&self) -> SpecQuery {
        match self {
            Query::File(f) => SpecQuery::File(f@),
            Query::Terms(ts) => SpecQuery::Terms(terms_model(ts@)),
        }
    }
}

/// Deep copy of a sequence of terms; the copy has the same models.
pub(crate) fn clone_terms(ts: &Vec<Term>) -> (r: Vec<Term>)
    ensures
        r@.len() == ts@.len(),
        forall|i: int| 0 <= i < ts@.len() ==> r@[i]@ == ts@[i]@,
    decreases ts@,
{
    let mut r: Vec<Term> = Vec::new();
    let mut i: usize = 0;
    while i < ts.len()
        invariant
            i <= ts.len(),
            r@.len() == i as int,
            forall|j: int| 0 <= j < i ==> r@[j]@ == ts@[j]@,
        decreases ts@.len() - i,
    {
        r.push(ts[i].clone());
        i = i + 1;
    }
    r
}

impl Clone for Term {
    /// Deep copy; the copy has the same model as the original.
    fn clone(&self) -> (r: Term)
        ensures
            r@ == self@,
        decreases *self,
    {
        match self {
            Term::Const(c) => Term::Const(c.clone()),
            Term::Var(v) => Term::Var(v.clone()),
            Term::Combined { functor, args } => {
                let new_args = clone_terms(args);
                let r = Term::Combined { functor: functor.clone(), args: new_args };
                proof {
                    lemma_terms_model(new_args@);
                    lemma_terms_model(args@);
                    assert(terms_model(new_args@) =~= terms_model(args@));
                    assert(r@ =~= self@);
                }
                r
            }
        }
    }
}

/// Keeps the first occurrence of each identifier, in order.
pub open spec fn dedup_vars(s: Seq<Seq<char>>) -> Seq<Seq<char>>
    decreases s,
{
    if s.len() == 0 {
        Seq::empty()
    } else if s.drop_last().contains(s.last()) {
        dedup_vars(s.drop_last())
    } else {
        dedup_vars(s.drop_last()).push(s.last())
    }
}

/// Deduplication keeps exactly the identifiers of the input, each once.
pub proof fn lemma_dedup_vars(s: Seq<Seq<char>>)
    ensures
        dedup_vars(s).len() <= s.len(),
        forall|v: Seq<char>| #[trigger] dedup_vars(s).contains(v) <==> s.contains(v),
        forall|i: int, j: int| 0 <= i < j < dedup_vars(s).len() ==> dedup_vars(s)[i]
            != dedup_vars(s)[j],
    decreases s,
{
    let d = dedup_vars(s);
    if s.len() > 0 {
        lemma_dedup_vars(s.drop_last());
        let dp = dedup_vars(s.drop_last());
        assert forall|v: Seq<char>| #[trigger] d.contains(v) implies s.contains(v) by {
            if dp.contains(v) {
                assert(s.drop_last().contains(v));
                let i = choose|i: int| 0 <= i < s.drop_last().len() && s.drop_last()[i] == v;
                assert(s[i] == v);
            } else {
                assert(v == s.last());
                assert(s[s.len() - 1] == v);
            }
        }
        assert forall|v: Seq<char>| #[trigger] s.contains(v) implies d.contains(v) by {
            let i = choose|i: int| 0 <= i < s.len() && s[i] == v;
            if i < s.len() - 1 {
                assert(s.drop_last()[i] == v);
                assert(s.drop_last().contains(v));
                assert(dp.contains(v));
                if s.drop_last().contains(s.last()) {
                } else {
                    let k = choose|k: int| 0 <= k < dp.len() && dp[k] == v;
                    assert(d[k] == v);
                }
            } else {
                if s.drop_last().contains(s.last()) {
                    assert(dp.contains(v));
                } else {
                    assert(d[d.len() - 1] == v);
                }
            }
        }
        assert forall|i: int, j: int| 0 <= i < j < d.len() implies d[i] != d[j] by {
            if s.drop_last().contains(s.last()) {
            } else {
                if j < d.len() - 1 {
                    assert(d[i] == dp[i] && d[j] == dp[j]);
                } else {
                    assert(d[j] == s.last());
                    assert(d[i] == dp[i]);
                    assert(dp.contains(dp[i]));
                    assert(s.drop_last().contains(dp[i]));
                }
            }
        }
    }
}

/// Whether a list of identifiers holds one equal to `x`.
fn contains_string(vs: &Vec<String>, x: &String) -> (r: bool)
    ensures
        r == strings_model(vs@).contains(x@),
{
    let mut i: usize = 0;
    while i < vs.len()
        invariant
            i <= vs@.len(),
            forall|j: int| 0 <= j < i ==> strings_model(vs@)[j] != x@,
        decreases vs@.len() - i,
    {
        if string_eq(&vs[i], x) {
            proof {
                assert(strings_model(vs@)[i as int] == x@);
            }
            return true;
        }
        i = i + 1;
    }
    proof {
        if strings_model(vs@).contains(x@) {
            let j = choose|j: int|
                0 <= j < strings_model(vs@).len() && strings_model(vs@)[j] == x@;
            assert(false);
        }
    }
    false
}

/// Keeps the first occurrence of each identifier, in order.
pub(crate) fn dedup_strings(vs: &Vec<String>) -> (r: Vec<String>)
    ensures
        strings_model(r@) == dedup_vars(strings_model(vs@)),
{
    let ghost sm = strings_model(vs@);
    let mut r: Vec<String> = Vec::new();
    let mut seen: Vec<String> = Vec::new();
    let mut i: usize = 0;
    proof {
        assert(sm.take(0) =~= Seq::<Seq<char>>::empty());
        assert(strings_model(r@) =~= dedup_vars(sm.take(0)));
    }
    while i < vs.len()
        invariant
            i <= vs@.len(),
            sm == strings_model(vs@),
            sm.len() == vs@.len(),
            strings_model(seen@) == sm.take(i as int),
            strings_model(r@) == dedup_vars(sm.take(i as int)),
        decreases vs@.len() - i,
    {
        let present = contains_string(&seen, &vs[i]);
        proof {
            assert(sm.take(i + 1).drop_last() =~= sm.take(i as int));
            assert(sm.take(i + 1).last() == sm[i as int]);
        }
        if !present {
            r.push(vs[i].clone());
            proof {
                assert(strings_model(r@) =~= strings_model(r@.drop_last()).push(r@.last()@));
            }
        }
        seen.push(vs[i].clone());
        proof {
            assert(strings_model(seen@) =~= strings_model(seen@.drop_last()).push(
                seen@.last()@,
            ));
            assert(strings_model(seen@) =~= sm.take(i + 1));
        }
        i = i + 1;
    }
    proof {
        assert(sm.take(vs@.len() as int) =~= sm);
    }
    r
}

impl Term {
    /// One-pass simultaneous application of a binding list read as a map:
    /// each variable is replaced by its first image in the list, and images
    /// are not substituted into again.
    pub fn subst_map(&self, map: &Vec<Subst>) -> (r: Term)
        ensures
            r@ == map_apply(bindings_map(subs_model(map@)), self@),
        decreases *self,
    {
        let ghost m = bindings_map(subs_model(map@));
        match self {
            Term::Const(_) => self.clone(),
            Term::Var(v) => {
                match find_image(v, map) {
                    Some(t) => t,
                    None => self.clone(),
                }
            }
            Term::Combined { functor, args } => {
                let new_args = subst_map_terms(args, map);
                let r = Term::Combined { functor: functor.clone(), args: new_args };
                proof {
                    lemma_terms_model(new_args@);
                    lemma_terms_model(args@);
                    lemma_map_apply_seq(m, terms_model(args@));
                    assert(terms_model(new_args@) =~= map_apply_seq(m, terms_model(args@)));
                    assert(r@ =~= map_apply(m, self@));
                }
                r
            }
        }
    }
}

/// One-pass simultaneous application of a binding list to each term of a
/// list.
fn subst_map_terms(ts: &Vec<Term>, map: &Vec<Subst>) -> (r: Vec<Term>)
    ensures
        r@.len() == ts@.len(),
        forall|i: int| 0 <= i < ts@.len() ==> r@[i]@ == map_apply(
            bindings_map(subs_model(map@)),
            ts@[i]@,
        ),
    decreases ts@,
{
    let mut r: Vec<Term> = Vec::new();
    let mut i: usize = 0;
    while i < ts.len()
        invariant
            i <= ts.len(),
            r@.len() == i as int,
            forall|j: int| 0 <= j < i ==> r@[j]@ == map_apply(
                bindings_map(subs_model(map@)),
                ts@[j]@,
            ),
        decreases ts@.len() - i,
    {
        r.push(ts[i].subst_map(map));
        i = i + 1;
    }
    r
}

/// All free variables of a clause: head first, then the body in order.
pub open spec fn rule_free_vars(r: SpecRule) -> Seq<Seq<char>> {
    spec_free_vars(r.lhs) + spec_free_vars_seq(r.rhs)
}

/// The distinct free variables of a clause, in first-occurrence order.
pub open spec fn inst_vars(r: SpecRule) -> Seq<Seq<char>> {
    dedup_vars(rule_free_vars(r))
}

/// The renaming a clause instantiation applies, with `base` the counter
/// value before the call: the k-th distinct variable of the clause goes to
/// the variable named after counter value `base + 1 + k`.
pub open spec fn inst_map(r: SpecRule, base: int) -> SpecSubstMap {
    Map::new(
        |v: Seq<char>| inst_vars(r).contains(v),
        |v: Seq<char>| SpecTerm::Var(spec_int_decimal(base + 1 + inst_vars(r).index_of(v))),
    )
}

/// An identifier minted from a counter value in the range `(lo, hi]`.
pub open spec fn is_counter_name(w: Seq<char>, lo: int, hi: int) -> bool {
    exists|c: int| lo < c <= hi && w == spec_int_decimal(c)
}

impl Rule {
    /// A variant of this clause in which every variable is renamed to a
    /// fresh one, named by the decimal value of the incremented session
    /// counter; the counter moves past all names used. Every variable of
    /// the result is such a counter name, so instantiations at different
    /// counter values share no variables.
    pub fn instantiate(&self, vars_count: &mut i32) -> (r: Rule)
        requires
            *old(vars_count) >= 0,
            *old(vars_count) + rule_free_vars(self@).len() <= i32::MAX,
        ensures
            *old(vars_count) <= *final(vars_count),
            *final(vars_count) == *old(vars_count) + inst_vars(self@).len(),
            r@.lhs == map_apply(inst_map(self@, *old(vars_count) as int), self@.lhs),
            r@.rhs.len() == self@.rhs.len(),
            forall|i: int| 0 <= i < self@.rhs.len() ==> r@.rhs[i] == map_apply(
                inst_map(self@, *old(vars_count) as int),
                self@.rhs[i],
            ),
            forall|w: Seq<char>| occurs(w, r@.lhs) || occurs_in_seq(w, r@.rhs)
                ==> is_counter_name(w, *old(vars_count) as int, *final(vars_count) as int),
    {
        let ghost base = *vars_count as int;
        let ghost rm = self@;
        let mut fv = self.lhs.free_vars();
        let mut fv_rhs = Term::free_vars_sum(&self.rhs);
        fv.append(&mut fv_rhs);
        proof {
            assert(strings_model(fv@) =~= rule_free_vars(rm));
            lemma_dedup_vars(rule_free_vars(rm));
        }
        let vars = dedup_strings(&fv);
        let ghost vs = inst_vars(rm);
        let mut map: Vec<Subst> = Vec::new();
        let mut k: usize = 0;
        #[verifier::loop_isolation(false)]
        while k < vars.len()
            invariant
                k <= vars@.len(),
                *vars_count == base + k,
                map@.len() == k as int,
                forall|j: int| 0 <= j < k ==> (#[trigger] map@[j]@).var == vs[j]
                    && map@[j]@.term == SpecTerm::Var(spec_int_decimal(base + 1 + j)),
            decreases vars@.len() - k,
        {
            *vars_count = *vars_count + 1;
            let name = i32_to_decimal(*vars_count);
            map.push(Subst { var: vars[k].clone(), term: Term::Var(name) });
            k = k + 1;
        }
        let new_lhs = self.lhs.subst_map(&map);
        let new_rhs = subst_map_terms(&self.rhs, &map);
        let r = Rule { lhs: new_lhs, rhs: new_rhs };
        proof {
            let m_used = bindings_map(subs_model(map@));
            let m_goal = inst_map(rm, base);
            assert forall|v: Seq<char>| true implies #[trigger] m_used.dom().contains(v)
                == m_goal.dom().contains(v) by {
                if vs.contains(v) {
                    let i = vs.index_of(v);
                    assert(0 <= i < vs.len() && vs[i] == v);
                    assert forall|j: int| 0 <= j < i implies (#[trigger] subs_model(
                        map@,
                    )[j]).var != v by {
                        assert(map@[j]@.var == vs[j]);
                        assert(vs[j] != vs[i]);
                    }
                    assert(subs_model(map@)[i].var == v);
                    lemma_find_binding_indexed(v, subs_model(map@), i);
                } else {
                    assert forall|j: int| 0 <= j < subs_model(map@).len() implies (
                    #[trigger] subs_model(map@)[j]).var != v by {
                        assert(map@[j]@.var == vs[j]);
                        assert(vs.contains(vs[j]));
                    }
                    lemma_find_binding_none(v, subs_model(map@));
                }
            }
            assert forall|v: Seq<char>| m_goal.dom().contains(v) implies #[trigger] m_used[v]
                == m_goal[v] by {
                let i = vs.index_of(v);
                assert(0 <= i < vs.len() && vs[i] == v);
                assert forall|j: int| 0 <= j < i implies (#[trigger] subs_model(map@)[j]).var
                    != v by {
                    assert(map@[j]@.var == vs[j]);
                    assert(vs[j] != vs[i]);
                }
                assert(subs_model(map@)[i].var == v);
                lemma_find_binding_indexed(v, subs_model(map@), i);
                assert(m_used[v] == SpecTerm::Var(spec_int_decimal(base + 1 + i)));
            }
            assert(m_used =~= m_goal);
            lemma_terms_model(self.rhs@);
            assert(r@.rhs.len() == rm.rhs.len()) by {
                lemma_terms_model(new_rhs@);
            }
            assert forall|i: int| 0 <= i < rm.rhs.len() implies r@.rhs[i] == map_apply(
                m_goal,
                rm.rhs[i],
            ) by {
                lemma_terms_model(new_rhs@);
            }
            // Freshness: every variable of the instantiated clause is a
            // counter name from this instantiation's window.
            lemma_dedup_vars(rule_free_vars(rm));
            lemma_free_vars_occurs(rm.lhs);
            assert forall|w: Seq<char>| occurs(w, r@.lhs) || occurs_in_seq(w, r@.rhs)
                implies is_counter_name(w, base, base + vs.len()) by {
                lemma_covered_rule(rm, m_goal, base, w, r@);
            }
        }
        r
    }
}

/// The fresh-name counter, at value `c`, can no longer mint this name:
/// no later counter value renders to it.
pub open spec fn name_settled(w: Seq<char>, c: int) -> bool {
    forall|m: int| m > c ==> w != spec_int_decimal(m)
}

/// A name minted in a window is settled once the counter passed the
/// window's end.
pub proof fn lemma_counter_name_settled(w: Seq<char>, lo: int, hi: int)
    requires
        0 <= lo,
        is_counter_name(w, lo, hi),
    ensures
        name_settled(w, hi),
{
    let m0 = choose|c: int| lo < c <= hi && w == spec_int_decimal(c);
    assert forall|m: int| m > hi implies w != spec_int_decimal(m) by {
        if w == spec_int_decimal(m) {
            lemma_dec_digits_injective(m0 as nat, m as nat);
        }
    }
}

/// Clause instantiations at disjoint counter windows share no variables:
/// a name minted in an earlier window is never minted in a later one.
pub proof fn lemma_counter_windows_disjoint(w: Seq<char>, lo1: int, hi1: int, lo2: int, hi2: int)
    requires
        0 <= lo1,
        hi1 <= lo2,
        is_counter_name(w, lo1, hi1),
    ensures
        !is_counter_name(w, lo2, hi2),
{
    let c1 = choose|c: int| lo1 < c <= hi1 && w == spec_int_decimal(c);
    if is_counter_name(w, lo2, hi2) {
        let c2 = choose|c: int| lo2 < c <= hi2 && w == spec_int_decimal(c);
        lemma_dec_digits_injective(c1 as nat, c2 as nat);
    }
}

/// A counter name starts with a decimal digit, so it is never a variable
/// whose name starts with a letter, such as any variable a query can hold.
pub proof fn lemma_counter_name_starts_with_digit(w: Seq<char>, lo: int, hi: int)
    requires
        0 <= lo,
        is_counter_name(w, lo, hi),
    ensures
        w.len() >= 1,
        '0' <= w[0] <= '9',
{
    let c = choose|c: int| lo < c <= hi && w == spec_int_decimal(c);
    lemma_dec_digits_first(c as nat);
}

/// Every variable of an instantiated clause is one of the renaming's fresh
/// names.
proof fn lemma_covered_rule(
    rm: SpecRule,
    m: SpecSubstMap,
    base: int,
    w: Seq<char>,
    out: SpecRule,
)
    requires
        m == inst_map(rm, base),
        out.lhs == map_apply(m, rm.lhs),
        out.rhs.len() == rm.rhs.len(),
        forall|i: int| 0 <= i < rm.rhs.len() ==> out.rhs[i] == map_apply(m, rm.rhs[i]),
        occurs(w, out.lhs) || occurs_in_seq(w, out.rhs),
    ensures
        is_counter_name(w, base, base + inst_vars(rm).len()),
{
    let vs = inst_vars(rm);
    lemma_dedup_vars(rule_free_vars(rm));
    assert forall|v: Seq<char>| occurs(v, rm.lhs) implies m.dom().contains(v) by {
        lemma_free_vars_occurs(rm.lhs);
        assert(spec_free_vars(rm.lhs).contains(v));
        let j = choose|j: int|
            0 <= j < spec_free_vars(rm.lhs).len() && spec_free_vars(rm.lhs)[j] == v;
        assert(rule_free_vars(rm)[j] == v);
        assert(rule_free_vars(rm).contains(v));
    }
    if occurs(w, out.lhs) {
        lemma_occurs_map_apply_covered(w, m, rm.lhs);
        let v = choose|v: Seq<char>|
            occurs(v, rm.lhs) && m.dom().contains(v) && occurs(w, #[trigger] m[v]);
        let i = vs.index_of(v);
        assert(w == spec_int_decimal(base + 1 + i));
        assert(0 <= i < vs.len());
    } else {
        let k = crate::unifier::lemma_occurs_in_seq_witness(w, out.rhs);
        assert(out.rhs[k] == map_apply(m, rm.rhs[k]));
        assert forall|v: Seq<char>| occurs(v, rm.rhs[k]) implies m.dom().contains(v) by {
            crate::unifier::lemma_occurs_in_seq_index(v, rm.rhs, k);
            lemma_free_vars_occurs_seq(rm.rhs);
            assert(spec_free_vars_seq(rm.rhs).contains(v));
            let j = choose|j: int|
                0 <= j < spec_free_vars_seq(rm.rhs).len() && spec_free_vars_seq(rm.rhs)[j] == v;
            assert(rule_free_vars(rm)[spec_free_vars(rm.lhs).len() + j] == v);
            assert(rule_free_vars(rm).contains(v));
        }
        lemma_occurs_map_apply_covered(w, m, rm.rhs[k]);
        let v = choose|v: Seq<char>|
            occurs(v, rm.rhs[k]) && m.dom().contains(v) && occurs(w, #[trigger] m[v]);
        let i = vs.index_of(v);
        assert(w == spec_int_decimal(base + 1 + i));
        assert(0 <= i < vs.len());
    }
}

/// The canonical source form of a term: integers in decimal, strings in
/// double quotes, atoms and variables bare, compounds as
/// `functor(arg, ..., arg)`.
pub open spec fn spec_render(t: SpecTerm) -> Seq<char>
    decreases t,
{
    match t {
        SpecTerm::Const(c) => match c {
            SpecConstant::Int(i) => spec_int_decimal(i),
            SpecConstant::Str(s) => seq!['"'] + s + seq!['"'],
            SpecConstant::Name(n) => n,
        },
        SpecTerm::Var(v) => v,
        SpecTerm::Combined { functor, args } => functor + seq!['('] + spec_render_args(args)
            + seq![')'],
    }
}

/// The renderings of a sequence of terms, joined by a comma and a space.
pub open spec fn spec_render_args(args: Seq<SpecTerm>) -> Seq<char>
    decreases args,
{
    if args.len() == 0 {
        Seq::empty()
    } else if args.len() == 1 {
        spec_render(args.last())
    } else {
        spec_render_args(args.drop_last()) + seq![',', ' '] + spec_render(args.last())
    }
}

impl Term {
    /// Renders this term in canonical source form.
    pub fn to_string(&self) -> (r: String)
        ensures
            r@ == spec_render(self@),
        decreases *self,
    {
        match self {
            Term::Const(c) => match c {
                Constant::Int(i) => i32_to_decimal(*i),
                Constant::Str(s) => {
                    let mut out = String::new();
                    proof {
                        reveal_strlit("\"");
                    }
                    out.append("\"");
                    out.append(s.as_str());
                    out.append("\"");
                    proof {
                        assert(out@ =~= spec_render(self@));
                    }
                    out
                }
                Constant::Name(n) => n.clone(),
            },
            Term::Var(v) => v.clone(),
            Term::Combined { functor, args } => {
                let mut out = functor.clone();
                proof {
                    reveal_strlit("(");
                    reveal_strlit(")");
                }
                out.append("(");
                let rendered = render_args(args);
                out.append(rendered.as_str());
                out.append(")");
                proof {
                    assert(out@ =~= spec_render(self@));
                }
                out
            }
        }
    }
}

/// Renders a list of terms, joined by a comma and a space.
#[verifier::loop_isolation(false)]
fn render_args(ts: &Vec<Term>) -> (r: String)
    ensures
        r@ == spec_render_args(terms_model(ts@)),
    decreases ts@,
{
    let ghost ms = terms_model(ts@);
    proof {
        lemma_terms_model(ts@);
    }
    let mut out = String::new();
    let mut i: usize = 0;
    proof {
        reveal_strlit(", ");
        assert(ms.take(0) =~= Seq::<SpecTerm>::empty());
    }
    while i < ts.len()
        invariant
            i <= ts@.len(),
            out@ == spec_render_args(ms.take(i as int)),
        decreases ts@.len() - i,
    {
        if i > 0 {
            out.append(", ");
        }
        let piece = ts[i].to_string();
        out.append(piece.as_str());
        proof {
            assert(ms.take(i + 1).drop_last() =~= ms.take(i as int));
            assert(ms.take(i + 1).last() == ms[i as int]);
            if i == 0 {
                assert(out@ =~= spec_render_args(ms.take(1)));
            } else {
                assert(out@ =~= spec_render_args(ms.take(i + 1)));
            }
        }
        i = i + 1;
    }
    proof {
        assert(ms.take(ts@.len() as int) =~= ms);
    }
    out
}

/// Merges one binding into an association list: a new variable is appended;
/// for a variable already bound, a variable image may be refined by a
/// non-variable image, two variable images must agree, and two
/// non-variable images must agree.
pub open spec fn merge_entry(acc: Seq<SpecBinding>, e: SpecBinding) -> Option<Seq<SpecBinding>>
    decreases acc.len(),
{
    if acc.len() == 0 {
        Option::Some(seq![e])
    } else if acc.first().var == e.var {
        let val = acc.first().term;
        if val is Var && e.term is Var {
            if val == e.term {
                Option::Some(acc)
            } else {
                Option::None
            }
        } else if val is Var {
            Option::Some(acc.update(0, e))
        } else if e.term is Var {
            Option::Some(acc)
        } else if val == e.term {
            Option::Some(acc)
        } else {
            Option::None
        }
    } else {
        match merge_entry(acc.drop_first(), e) {
            Option::None => Option::None,
            Option::Some(r) => Option::Some(seq![acc.first()] + r),
        }
    }
}

/// Merges a list of bindings into an association list, first entry first.
pub open spec fn merge_entries(acc: Seq<SpecBinding>, entries: Seq<SpecBinding>) -> Option<
    Seq<SpecBinding>,
>
    decreases entries.len(),
{
    if entries.len() == 0 {
        Option::Some(acc)
    } else {
        match merge_entry(acc, entries.first()) {
            Option::None => Option::None,
            Option::Some(a2) => merge_entries(a2, entries.drop_first()),
        }
    }
}

/// The variable-to-term matching of `p` against `q`: bindings that send
/// the variables of `p` to the corresponding parts of `q`. A variable
/// matches anything; a constant or a non-compound counterpart contributes
/// nothing; compounds must agree on the functor, and their arguments are
/// matched position by position, a failed position contributing nothing.
pub open spec fn spec_var_map(p: SpecTerm, q: SpecTerm) -> Option<Seq<SpecBinding>>
    decreases p,
{
    match p {
        SpecTerm::Var(v) => Option::Some(seq![SpecBinding { var: v, term: q }]),
        SpecTerm::Const(_) => Option::Some(Seq::empty()),
        SpecTerm::Combined { functor: f1, args: a1 } => match q {
            SpecTerm::Combined { functor: f2, args: a2 } => if f1 != f2 {
                Option::None
            } else {
                spec_var_map_args(a1, a2, Seq::empty())
            },
            _ => Option::Some(Seq::empty()),
        },
    }
}

/// Folds `spec_var_map` over paired arguments, merging each match into the
/// accumulator; unpaired arguments are ignored.
pub open spec fn spec_var_map_args(
    a1: Seq<SpecTerm>,
    a2: Seq<SpecTerm>,
    acc: Seq<SpecBinding>,
) -> Option<Seq<SpecBinding>>
    decreases a1,
{
    if a1.len() == 0 || a2.len() == 0 {
        Option::Some(acc)
    } else {
        match spec_var_map(a1.first(), a2.first()) {
            Option::None => spec_var_map_args(a1.drop_first(), a2.drop_first(), acc),
            Option::Some(sub) => match merge_entries(acc, sub) {
                Option::None => Option::None,
                Option::Some(acc2) => spec_var_map_args(a1.drop_first(), a2.drop_first(), acc2),
            },
        }
    }
}

/// `merge_entry` scans past a prefix that does not hold the variable.
proof fn lemma_merge_entry_skip(acc: Seq<SpecBinding>, e: SpecBinding, j: int)
    requires
        0 <= j <= acc.len(),
        forall|k: int| 0 <= k < j ==> (#[trigger] acc[k]).var != e.var,
    ensures
        merge_entry(acc, e) == (match merge_entry(acc.skip(j), e) {
            Option::None => Option::None::<Seq<SpecBinding>>,
            Option::Some(r) => Option::Some(acc.take(j) + r),
        }),
    decreases j,
{
    if j == 0 {
        assert(acc.skip(0) =~= acc);
        match merge_entry(acc, e) {
            Option::None => {}
            Option::Some(r) => {
                assert(acc.take(0) + r =~= r);
            }
        }
    } else {
        assert(acc[0].var != e.var);
        assert(acc.first() == acc[0]);
        let rest = acc.drop_first();
        assert forall|k: int| 0 <= k < j - 1 implies (#[trigger] rest[k]).var != e.var by {
            assert(rest[k] == acc[k + 1]);
        }
        lemma_merge_entry_skip(rest, e, j - 1);
        assert(rest.skip(j - 1) =~= acc.skip(j));
        match merge_entry(acc.skip(j), e) {
            Option::None => {}
            Option::Some(r) => {
                assert(seq![acc.first()] + (rest.take(j - 1) + r) =~= acc.take(j) + r);
            }
        }
    }
}

/// Merges one binding into an association list.
#[verifier::loop_isolation(false)]
fn merge_entry_exec(acc: Vec<Subst>, e: Subst) -> (r: Option<Vec<Subst>>)
    ensures
        (match r {
            Option::Some(v) => merge_entry(subs_model(acc@), e@) == Option::Some(subs_model(v@)),
            Option::None => merge_entry(subs_model(acc@), e@) is None,
        }),
{
    let ghost am = subs_model(acc@);
    let ghost em = e@;
    let mut acc = acc;
    let mut j: usize = 0;
    while j < acc.len()
        invariant
            j <= acc@.len(),
            subs_model(acc@) == am,
            forall|k: int| 0 <= k < j ==> (#[trigger] am[k]).var != em.var,
        decreases acc@.len() - j,
    {
        if string_eq(&acc[j].var, &e.var) {
            proof {
                lemma_merge_entry_skip(am, em, j as int);
                assert(am.skip(j as int).first() == am[j as int]);
            }
            let val_is_var = matches!(&acc[j].term, Term::Var(_));
            let e_is_var = matches!(&e.term, Term::Var(_));
            if val_is_var && e_is_var {
                if acc[j].term == e.term {
                    proof {
                        assert(am.take(j as int) + am.skip(j as int) =~= am);
                    }
                    return Some(acc);
                } else {
                    return None;
                }
            } else if val_is_var {
                acc.set(j, e);
                proof {
                    assert(am.take(j as int) + am.skip(j as int).update(0, em) =~= subs_model(
                        acc@,
                    ));
                }
                return Some(acc);
            } else if e_is_var {
                proof {
                    assert(am.take(j as int) + am.skip(j as int) =~= am);
                }
                return Some(acc);
            } else if acc[j].term == e.term {
                proof {
                    assert(am.take(j as int) + am.skip(j as int) =~= am);
                }
                return Some(acc);
            } else {
                return None;
            }
        }
        j = j + 1;
    }
    proof {
        lemma_merge_entry_skip(am, em, am.len() as int);
        assert(am.skip(am.len() as int) =~= Seq::<SpecBinding>::empty());
    }
    acc.push(e);
    proof {
        assert(am.take(am.len() as int) + seq![em] =~= subs_model(acc@));
    }
    Some(acc)
}

/// Merges a list of bindings into an association list, first entry first.
#[verifier::loop_isolation(false)]
fn merge_entries_exec(acc: Vec<Subst>, entries: Vec<Subst>) -> (r: Option<Vec<Subst>>)
    ensures
        (match r {
            Option::Some(v) => merge_entries(subs_model(acc@), subs_model(entries@))
                == Option::Some(subs_model(v@)),
            Option::None => merge_entries(subs_model(acc@), subs_model(entries@)) is None,
        }),
{
    let ghost am0 = subs_model(acc@);
    let ghost ems = subs_model(entries@);
    let mut acc = acc;
    let mut i: usize = 0;
    proof {
        assert(ems.skip(0) =~= ems);
    }
    while i < entries.len()
        invariant
            i <= entries@.len(),
            ems == subs_model(entries@),
            merge_entries(am0, ems) == merge_entries(subs_model(acc@), ems.skip(i as int)),
        decreases entries@.len() - i,
    {
        proof {
            assert(ems.skip(i as int).first() == ems[i as int]);
            assert(ems.skip(i as int).drop_first() =~= ems.skip(i + 1));
        }
        match merge_entry_exec(acc, entries[i].clone()) {
            Option::None => {
                return None;
            }
            Option::Some(a2) => {
                acc = a2;
            }
        }
        i = i + 1;
    }
    proof {
        assert(ems.skip(entries@.len() as int) =~= Seq::<SpecBinding>::empty());
    }
    Some(acc)
}

impl Term {
    /// The variable-to-term matching of this term against `term`: bindings
    /// sending this term's variables to the corresponding parts of `term`,
    /// or nothing when corresponding parts disagree.
    pub fn var_to_term_map(&self, term: &Term) -> (r: Option<Vec<Subst>>)
        ensures
            (match r {
                Option::Some(v) => spec_var_map(self@, term@) == Option::Some(subs_model(v@)),
                Option::None => spec_var_map(self@, term@) is None,
            }),
        decreases *self,
    {
        match self {
            Term::Var(v) => {
                let mut one: Vec<Subst> = Vec::new();
                one.push(Subst { var: v.clone(), term: term.clone() });
                proof {
                    assert(subs_model(one@) =~= seq![SpecBinding { var: v@, term: term@ }]);
                }
                Some(one)
            }
            Term::Const(_) => {
                let none_needed: Vec<Subst> = Vec::new();
                proof {
                    assert(subs_model(none_needed@) =~= Seq::<SpecBinding>::empty());
                }
                Some(none_needed)
            }
            Term::Combined { functor: f1, args: a1 } => {
                match term {
                    Term::Combined { functor: f2, args: a2 } => {
                        if !string_eq(f1, f2) {
                            None
                        } else {
                            let acc: Vec<Subst> = Vec::new();
                            proof {
                                assert(subs_model(acc@) =~= Seq::<SpecBinding>::empty());
                            }
                            var_map_args(a1, a2, acc)
                        }
                    }
                    _ => {
                        let empty_map: Vec<Subst> = Vec::new();
                        proof {
                            assert(subs_model(empty_map@) =~= Seq::<SpecBinding>::empty());
                        }
                        Some(empty_map)
                    }
                }
            }
        }
    }
}

/// Matches paired arguments one by one, merging each match into the
/// accumulator.
#[verifier::loop_isolation(false)]
fn var_map_args(a1: &Vec<Term>, a2: &Vec<Term>, acc: Vec<Subst>) -> (r: Option<Vec<Subst>>)
    ensures
        (match r {
            Option::Some(v) => spec_var_map_args(terms_model(a1@), terms_model(a2@), subs_model(
                acc@,
            )) == Option::Some(subs_model(v@)),
            Option::None => spec_var_map_args(terms_model(a1@), terms_model(a2@), subs_model(
                acc@,
            )) is None,
        }),
    decreases a1@,
{
    let ghost m1 = terms_model(a1@);
    let ghost m2 = terms_model(a2@);
    let ghost acc0 = subs_model(acc@);
    proof {
        lemma_terms_model(a1@);
        lemma_terms_model(a2@);
        assert(m1.skip(0) =~= m1);
        assert(m2.skip(0) =~= m2);
    }
    let mut acc = acc;
    let mut i: usize = 0;
    let n = if a1.len() < a2.len() {
        a1.len()
    } else {
        a2.len()
    };
    while i < n
        invariant
            i <= n,
            n == (if a1@.len() < a2@.len() {
                a1@.len()
            } else {
                a2@.len()
            }),
            m1 == terms_model(a1@),
            m2 == terms_model(a2@),
            spec_var_map_args(m1, m2, acc0) == spec_var_map_args(
                m1.skip(i as int),
                m2.skip(i as int),
                subs_model(acc@),
            ),
        decreases n - i,
    {
        proof {
            assert(m1.skip(i as int).first() == m1[i as int]);
            assert(m2.skip(i as int).first() == m2[i as int]);
            assert(m1.skip(i as int).drop_first() =~= m1.skip(i + 1));
            assert(m2.skip(i as int).drop_first() =~= m2.skip(i + 1));
        }
        match a1[i].var_to_term_map(&a2[i]) {
            Option::None => {}
            Option::Some(sub) => {
                match merge_entries_exec(acc, sub) {
                    Option::None => {
                        return None;
                    }
                    Option::Some(a2new) => {
                        acc = a2new;
                    }
                }
            }
        }
        i = i + 1;
    }
    proof {
        assert(m1.skip(n as int).len() == 0 || m2.skip(n as int).len() == 0);
    }
    Some(acc)
}

} // verus!
