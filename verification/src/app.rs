//! The session: the clause database, the fresh-variable counter, and the
//! breadth-first resolution engine.

use std::collections::VecDeque;

use vstd::prelude::*;

use crate::expr::{dedup_vars, inst_map, is_counter_name, lemma_counter_name_settled,
    lemma_dedup_vars, lemma_free_vars_occurs, lemma_ground_free_vars_empty, name_settled, occurs,
    occurs_in_seq, rule_free_vars, spec_free_vars, spec_free_vars_seq, spec_has_free_var,
    strings_model, terms_model, Rule, SpecRule, SpecTerm, Term, Variable};
use crate::unifier::{apply_list, bindings_vars_in, compose, constraints_model, cs_vars,
    lemma_apply_list_append, lemma_apply_list_ground, lemma_apply_list_grounds_vars,
    lemma_apply_list_id, lemma_cs_vars, lemma_list_as_map, lemma_map_apply_empty,
    lemma_map_apply_ground, lemma_map_compose, lemma_occurs_apply_list,
    lemma_occurs_in_seq_index, list_as_map, map_apply, map_apply_seq, map_compose, map_unifies,
    subs_model, unify, Constraint, SpecBinding, SpecSubstMap, Subst};

verus! {

/// One pending branch of the proof search: the goals still to prove, and
/// the substitution accumulated so far along this branch.
pub struct QueueItem {
    pub goals: Vec<Term>,
    pub substs: Vec<Subst>,
}

/// The outcome of a query: whether a derivation was found, and the asked
/// variables' values when one was.
pub struct Status {
    pub done: bool,
    pub var_to_term: Vec<Subst>,
}

/// A session: the clause database, the frontier of the running search, the
/// variables asked by the current query, and the fresh-name counter.
pub struct App {
    pub rules: Vec<Rule>,
    pub queue: VecDeque<QueueItem>,
    pub asked_vars: Vec<Variable>,
    pub vars_count: i32,
}

/// How many frontier items one query may explore before the search is
/// abandoned; left-recursive clause sets never terminate without a budget.
pub const STEP_BUDGET: u64 = 1000000;

/// The models of the clause database.
pub open spec fn rules_model(rs: Seq<Rule>) -> Seq<SpecRule> {
    rs.map_values(|r: Rule| r@)
}

/// The term under a branch's bindings and a further substitution map.
pub open spec fn applied(sb: Seq<SpecBinding>, theta: SpecSubstMap, t: SpecTerm) -> SpecTerm {
    map_apply(theta, apply_list(sb, t))
}

/// Every goal of the list is derivable under the branch's bindings and the
/// further substitution.
pub open spec fn all_derivable(
    rules: Seq<SpecRule>,
    gs: Seq<SpecTerm>,
    sb: Seq<SpecBinding>,
    theta: SpecSubstMap,
) -> bool {
    forall|k: int| 0 <= k < gs.len() ==> derivable(rules, applied(sb, theta, #[trigger] gs[k]))
}

/// The branch is faithful to the query: any further substitution that
/// proves all its remaining goals under its bindings proves all the
/// query's goals under them too.
pub open spec fn branch_inv(
    rules: Seq<SpecRule>,
    g0: Seq<SpecTerm>,
    gs: Seq<SpecTerm>,
    sb: Seq<SpecBinding>,
) -> bool {
    forall|theta: SpecSubstMap| #[trigger] all_derivable(rules, gs, sb, theta) ==> all_derivable(
        rules,
        g0,
        sb,
        theta,
    )
}

/// Every variable of the term is settled at counter value `c`.
pub open spec fn term_settled(t: SpecTerm, c: int) -> bool {
    forall|w: Seq<char>| #[trigger] occurs(w, t) ==> name_settled(w, c)
}

/// Every variable of every goal is settled at counter value `c`.
pub open spec fn goals_settled(gs: Seq<SpecTerm>, c: int) -> bool {
    forall|k: int| 0 <= k < gs.len() ==> term_settled(#[trigger] gs[k], c)
}

/// Every binding's variable and image only hold settled names.
pub open spec fn subs_settled(sb: Seq<SpecBinding>, c: int) -> bool {
    forall|k: int| 0 <= k < sb.len() ==> name_settled((#[trigger] sb[k]).var, c) && term_settled(
        sb[k].term,
        c,
    )
}

/// A frontier item whose goals and bindings only hold settled names, and
/// which is faithful to the query.
pub open spec fn item_ok(rules: Seq<SpecRule>, g0: Seq<SpecTerm>, item: QueueItem, c: int) -> bool {
    &&& branch_inv(rules, g0, terms_model(item.goals@), subs_model(item.substs@))
    &&& goals_settled(terms_model(item.goals@), c)
    &&& subs_settled(subs_model(item.substs@), c)
}

/// Every goal of the query is derivable under the substitution.
pub open spec fn derived_under(
    rules: Seq<SpecRule>,
    gs: Seq<SpecTerm>,
    sigma: Seq<SpecBinding>,
) -> bool {
    forall|j: int| 0 <= j < gs.len() ==> derivable(rules, apply_list(sigma, #[trigger] gs[j]))
}

/// Some substitution makes every goal of the query derivable.
pub open spec fn goals_derived(rules: Seq<SpecRule>, gs: Seq<SpecTerm>) -> bool {
    exists|sigma: Seq<SpecBinding>| #[trigger] derived_under(rules, gs, sigma)
}

/// Goals whose variables do not begin with a digit — all that the surface
/// syntax can produce — are settled at any counter value: the counter only
/// mints digit-initial names.
pub proof fn lemma_goals_without_digit_names_settled(gs: Seq<SpecTerm>, c: int)
    requires
        0 <= c,
        forall|k: int, w: Seq<char>| 0 <= k < gs.len() && #[trigger] occurs(w, #[trigger] gs[k])
            ==> w.len() >= 1 && !('0' <= w[0] <= '9'),
    ensures
        goals_settled(gs, c),
{
    assert forall|k: int| 0 <= k < gs.len() implies term_settled(#[trigger] gs[k], c) by {
        assert forall|w: Seq<char>| #[trigger] occurs(w, gs[k]) implies name_settled(w, c) by {
            assert forall|m: int| m > c implies w != crate::util::spec_int_decimal(m) by {
                crate::util::lemma_dec_digits_first(m as nat);
            }
        }
    }
}

/// The clause at `ri` is a fact with a ground head that the substitution
/// map `theta` matches the goal onto.
pub open spec fn ground_fact_matches_at(
    rules: Seq<SpecRule>,
    ri: int,
    theta: SpecSubstMap,
    g: SpecTerm,
) -> bool {
    &&& 0 <= ri < rules.len()
    &&& rules[ri].rhs.len() == 0
    &&& !spec_has_free_var(rules[ri].lhs)
    &&& map_apply(theta, g) == rules[ri].lhs
}

/// Some clause of the database is a ground fact that some substitution
/// matches the goal onto.
pub open spec fn ground_fact_matches(rules: Seq<SpecRule>, g: SpecTerm) -> bool {
    exists|ri: int, theta: SpecSubstMap| #[trigger] ground_fact_matches_at(rules, ri, theta, g)
}

/// A frontier item that is reported as an answer the moment it is popped:
/// no goals left, and bindings that ground every asked variable.
spec fn winner(item: QueueItem, asked: Seq<Seq<char>>) -> bool {
    &&& item.goals@.len() == 0
    &&& forall|v: int| 0 <= v < asked.len() ==> !spec_has_free_var(
        apply_list(subs_model(item.substs@), SpecTerm::Var(#[trigger] asked[v])),
    )
}

/// Settled names stay settled as the counter grows.
proof fn lemma_settled_mono(gs: Seq<SpecTerm>, sb: Seq<SpecBinding>, c1: int, c2: int)
    requires
        c1 <= c2,
        goals_settled(gs, c1),
        subs_settled(sb, c1),
    ensures
        goals_settled(gs, c2),
        subs_settled(sb, c2),
{
}

/// One step of a derivation: which clause closed the goal, under which
/// substitution map, with one sub-derivation per body goal.
pub enum Derivation {
    Step { rule_i: int, inst: SpecSubstMap, kids: Seq<Derivation> },
}

/// The step derives `goal` from `rules`: the goal is the instantiated head
/// of the named clause, and each instantiated body goal has its own valid
/// sub-derivation.
pub open spec fn derivation_ok(rules: Seq<SpecRule>, d: Derivation, goal: SpecTerm) -> bool
    decreases d,
{
    match d {
        Derivation::Step { rule_i, inst, kids } => {
            &&& 0 <= rule_i < rules.len()
            &&& goal == map_apply(inst, rules[rule_i].lhs)
            &&& kids.len() == rules[rule_i].rhs.len()
            &&& derivation_kids_ok(rules, kids, map_apply_seq(inst, rules[rule_i].rhs))
        }
    }
}

/// Each sub-derivation derives its goal.
pub open spec fn derivation_kids_ok(
    rules: Seq<SpecRule>,
    kids: Seq<Derivation>,
    goals: Seq<SpecTerm>,
) -> bool
    decreases kids,
{
    if kids.len() == 0 {
        true
    } else {
        derivation_kids_ok(rules, kids.drop_last(), goals.drop_last()) && derivation_ok(
            rules,
            kids.last(),
            goals.last(),
        )
    }
}

/// A goal is derivable when some derivation derives it.
pub open spec fn derivable(rules: Seq<SpecRule>, goal: SpecTerm) -> bool {
    exists|d: Derivation| derivation_ok(rules, d, goal)
}

/// Derivations that derive their goals position by position derive them as
/// a list.
proof fn lemma_kids_ok_pointwise(rules: Seq<SpecRule>, kids: Seq<Derivation>, goals: Seq<SpecTerm>)
    requires
        kids.len() == goals.len(),
        forall|b: int| 0 <= b < kids.len() ==> derivation_ok(rules, #[trigger] kids[b], goals[b]),
    ensures
        derivation_kids_ok(rules, kids, goals),
    decreases kids,
{
    if kids.len() > 0 {
        lemma_kids_ok_pointwise(rules, kids.drop_last(), goals.drop_last());
    }
}

/// Soundness of one resolution step. When a goal unifies, under the
/// accumulated bindings `mu`, with the head of an instance of a database
/// clause, and every instantiated body goal is derivable under `mu` and
/// any further substitution `theta`, then the goal itself, under `mu` and
/// `theta`, is derivable: replacing a goal by the body of a unifying
/// clause never proves anything the database does not support.
pub proof fn lemma_resolution_step(
    rules: Seq<SpecRule>,
    rule_i: int,
    m: SpecSubstMap,
    mu: Seq<SpecBinding>,
    theta: SpecSubstMap,
    goal: SpecTerm,
)
    requires
        0 <= rule_i < rules.len(),
        apply_list(mu, goal) == apply_list(mu, map_apply(m, rules[rule_i].lhs)),
        forall|b: int| 0 <= b < rules[rule_i].rhs.len() ==> derivable(
            rules,
            map_apply(theta, apply_list(mu, map_apply(m, #[trigger] rules[rule_i].rhs[b]))),
        ),
    ensures
        derivable(rules, map_apply(theta, apply_list(mu, goal))),
{
    let after = map_compose(list_as_map(mu), theta);
    let s = map_compose(m, after);
    let lhs = rules[rule_i].lhs;
    let rhs = rules[rule_i].rhs;

    // Applying the composite map is instantiating, then unifying, then
    // applying the rest.
    assert forall|t: SpecTerm| #[trigger] map_apply(s, t) == map_apply(
        theta,
        apply_list(mu, map_apply(m, t)),
    ) by {
        lemma_map_compose(m, after, t);
        lemma_map_compose(list_as_map(mu), theta, map_apply(m, t));
        lemma_list_as_map(mu, map_apply(m, t));
    }
    assert(map_apply(s, lhs) == map_apply(theta, apply_list(mu, goal)));

    // One valid sub-derivation per body goal, from the hypothesis.
    let kids = Seq::new(
        rhs.len(),
        |b: int| choose|d: Derivation| derivation_ok(rules, d, map_apply(s, rhs[b])),
    );
    crate::unifier::lemma_map_apply_seq(s, rhs);
    assert forall|b: int| 0 <= b < kids.len() implies derivation_ok(
        rules,
        #[trigger] kids[b],
        map_apply_seq(s, rhs)[b],
    ) by {
        assert(derivable(rules, map_apply(theta, apply_list(mu, map_apply(m, rhs[b])))));
        assert(map_apply(s, rhs[b]) == map_apply(theta, apply_list(mu, map_apply(m, rhs[b]))));
        assert(derivation_ok(
            rules,
            choose|d: Derivation| derivation_ok(rules, d, map_apply(s, rhs[b])),
            map_apply(s, rhs[b]),
        ));
    }
    lemma_kids_ok_pointwise(rules, kids, map_apply_seq(s, rhs));
    let d = Derivation::Step { rule_i, inst: s, kids };
    assert(derivation_ok(rules, d, map_apply(theta, apply_list(mu, goal))));
}

/// A resolution step keeps a branch faithful to the query: replacing the
/// selected goal by the body of a freshly instantiated clause that
/// unifies with it, and absorbing the unifier, yields another faithful
/// branch.
proof fn lemma_branch_step(
    rm: Seq<SpecRule>,
    g0: Seq<SpecTerm>,
    gm_item: Seq<SpecTerm>,
    sigma_i: Seq<SpecBinding>,
    ri: int,
    base: int,
    cafter: int,
    mu: Seq<SpecBinding>,
    inst_lhs: SpecTerm,
    inst_rhs: Seq<SpecTerm>,
    resolved: SpecTerm,
    new_gs: Seq<SpecTerm>,
    new_sb: Seq<SpecBinding>,
)
    requires
        0 <= ri < rm.len(),
        branch_inv(rm, g0, gm_item, sigma_i),
        gm_item.len() > 0,
        subs_settled(sigma_i, base),
        inst_lhs == map_apply(inst_map(rm[ri], base), rm[ri].lhs),
        inst_rhs.len() == rm[ri].rhs.len(),
        forall|b: int| 0 <= b < inst_rhs.len() ==> #[trigger] inst_rhs[b] == map_apply(
            inst_map(rm[ri], base),
            rm[ri].rhs[b],
        ),
        forall|w: Seq<char>| occurs(w, inst_lhs) || occurs_in_seq(w, inst_rhs)
            ==> is_counter_name(w, base, cafter),
        apply_list(mu, resolved) == apply_list(mu, inst_lhs),
        resolved == apply_list(sigma_i, gm_item.last()),
        new_gs == gm_item.drop_last() + inst_rhs,
        new_sb == sigma_i + mu,
    ensures
        branch_inv(rm, g0, new_gs, new_sb),
{
    let m = inst_map(rm[ri], base);
    assert forall|theta: SpecSubstMap| #[trigger] all_derivable(rm, new_gs, new_sb, theta)
        implies all_derivable(rm, g0, new_sb, theta) by {
        let theta2 = map_compose(list_as_map(mu), theta);
        assert forall|t: SpecTerm| #[trigger] applied(sigma_i, theta2, t) == applied(
            new_sb,
            theta,
            t,
        ) by {
            lemma_map_compose(list_as_map(mu), theta, apply_list(sigma_i, t));
            lemma_list_as_map(mu, apply_list(sigma_i, t));
            lemma_apply_list_append(sigma_i, mu, t);
        }
        assert forall|k: int| 0 <= k < gm_item.len() implies derivable(
            rm,
            applied(sigma_i, theta2, #[trigger] gm_item[k]),
        ) by {
            if k < gm_item.len() - 1 {
                assert(new_gs[k] == gm_item[k]);
                assert(derivable(rm, applied(new_sb, theta, new_gs[k])));
            } else {
                assert forall|b: int| 0 <= b < rm[ri].rhs.len() implies derivable(
                    rm,
                    map_apply(theta, apply_list(mu, map_apply(m, #[trigger] rm[ri].rhs[b]))),
                ) by {
                    assert(new_gs[gm_item.len() - 1 + b] == inst_rhs[b]);
                    assert(derivable(rm, applied(new_sb, theta, inst_rhs[b])));
                    assert forall|idx: int| 0 <= idx < sigma_i.len() implies !occurs(
                        (#[trigger] sigma_i[idx]).var,
                        inst_rhs[b],
                    ) by {
                        if occurs(sigma_i[idx].var, inst_rhs[b]) {
                            lemma_occurs_in_seq_index(sigma_i[idx].var, inst_rhs, b);
                            assert(is_counter_name(sigma_i[idx].var, base, cafter));
                            let m0 = choose|c: int|
                                base < c <= cafter && sigma_i[idx].var
                                    == crate::util::spec_int_decimal(c);
                            assert(name_settled(sigma_i[idx].var, base));
                        }
                    }
                    lemma_apply_list_id(sigma_i, inst_rhs[b]);
                    lemma_apply_list_append(sigma_i, mu, inst_rhs[b]);
                }
                lemma_resolution_step(rm, ri, m, mu, theta, resolved);
                assert(applied(sigma_i, theta2, gm_item[k]) == map_apply(
                    theta,
                    apply_list(mu, resolved),
                )) by {
                    lemma_apply_list_append(sigma_i, mu, gm_item[k]);
                }
            }
        }
        assert(all_derivable(rm, gm_item, sigma_i, theta2));
        assert(all_derivable(rm, g0, sigma_i, theta2));
        assert forall|j: int| 0 <= j < g0.len() implies derivable(
            rm,
            applied(new_sb, theta, #[trigger] g0[j]),
        ) by {
            assert(derivable(rm, applied(sigma_i, theta2, g0[j])));
        }
    }
}

/// A resolution step only introduces names the counter has already
/// passed: the new branch is settled at the counter value after the
/// instantiation.
proof fn lemma_branch_step_settled(
    gm_item: Seq<SpecTerm>,
    sigma_i: Seq<SpecBinding>,
    base: int,
    cafter: int,
    mu: Seq<SpecBinding>,
    inst_lhs: SpecTerm,
    inst_rhs: Seq<SpecTerm>,
    resolved: SpecTerm,
    new_gs: Seq<SpecTerm>,
    new_sb: Seq<SpecBinding>,
)
    requires
        0 <= base <= cafter,
        gm_item.len() > 0,
        goals_settled(gm_item, base),
        subs_settled(sigma_i, base),
        forall|w: Seq<char>| occurs(w, inst_lhs) || occurs_in_seq(w, inst_rhs)
            ==> is_counter_name(w, base, cafter),
        bindings_vars_in(mu, cs_vars(seq![(resolved, inst_lhs)])),
        resolved == apply_list(sigma_i, gm_item.last()),
        new_gs == gm_item.drop_last() + inst_rhs,
        new_sb == sigma_i + mu,
    ensures
        goals_settled(new_gs, cafter),
        subs_settled(new_sb, cafter),
{
    // Any variable of the rewritten goal or of the unifier's material is
    // either an old settled name or a fresh window name.
    assert forall|w: Seq<char>| #[trigger] occurs(w, resolved) implies name_settled(
        w,
        cafter,
    ) by {
        lemma_occurs_apply_list(w, sigma_i, gm_item.last());
        assert(gm_item[gm_item.len() - 1] == gm_item.last());
    }
    assert forall|w: Seq<char>| #[trigger] occurs(w, inst_lhs) implies name_settled(
        w,
        cafter,
    ) by {
        lemma_counter_name_settled(w, base, cafter);
    }
    assert forall|k: int| 0 <= k < new_gs.len() implies term_settled(
        #[trigger] new_gs[k],
        cafter,
    ) by {
        if k < gm_item.len() - 1 {
            assert(new_gs[k] == gm_item[k]);
        } else {
            let b = k - (gm_item.len() - 1);
            assert(new_gs[k] == inst_rhs[b]);
            assert forall|w: Seq<char>| #[trigger] occurs(w, inst_rhs[b]) implies name_settled(
                w,
                cafter,
            ) by {
                lemma_occurs_in_seq_index(w, inst_rhs, b);
                lemma_counter_name_settled(w, base, cafter);
            }
        }
    }
    lemma_cs_vars(seq![(resolved, inst_lhs)]);
    assert forall|k: int| 0 <= k < new_sb.len() implies name_settled(
        (#[trigger] new_sb[k]).var,
        cafter,
    ) && term_settled(new_sb[k].term, cafter) by {
        if k < sigma_i.len() {
            assert(new_sb[k] == sigma_i[k]);
        } else {
            let b = k - sigma_i.len();
            assert(new_sb[k] == mu[b]);
            let pair_cs = seq![(resolved, inst_lhs)];
            assert(cs_vars(pair_cs).contains(mu[b].var));
            assert(occurs(mu[b].var, pair_cs[0].0) || occurs(mu[b].var, pair_cs[0].1));
            assert(name_settled(mu[b].var, cafter));
            assert forall|w: Seq<char>| #[trigger] occurs(w, mu[b].term) implies name_settled(
                w,
                cafter,
            ) by {
                assert(cs_vars(pair_cs).contains(w));
                assert(occurs(w, pair_cs[0].0) || occurs(w, pair_cs[0].1));
            }
        }
    }
}

impl App {
    /// A fresh session: no clauses, an empty frontier, a zeroed counter.
    pub fn new() -> (r: App)
        ensures
            r.rules@.len() == 0,
            r.queue@.len() == 0,
            r.asked_vars@.len() == 0,
            r.vars_count == 0,
    {
        App { rules: Vec::new(), queue: VecDeque::new(), asked_vars: Vec::new(), vars_count: 0 }
    }

    /// Appends parsed clauses to the database. Nothing else changes: the
    /// database only ever grows, and clauses keep their indices.
    pub fn add_rules(&mut self, rs: Vec<Rule>)
        ensures
            final(self).rules@.len() == old(self).rules@.len() + rs@.len(),
            forall|i: int| 0 <= i < old(self).rules@.len() ==> final(self).rules@[i] == old(
                self,
            ).rules@[i],
            forall|i: int| 0 <= i < rs@.len() ==> final(self).rules@[old(self).rules@.len() + i]
                == rs@[i],
            final(self).queue@ == old(self).queue@,
            final(self).asked_vars@ == old(self).asked_vars@,
            final(self).vars_count == old(self).vars_count,
    {
        let mut rs = rs;
        self.rules.append(&mut rs);
    }

    /// Proves a conjunctive goal list against the database by SLD
    /// resolution over a first-in, first-out frontier, within the step
    /// budget. Clauses are tried in insertion order; each candidate clause
    /// is instantiated with fresh variables and unified with the selected
    /// goal under the branch's substitution. On success the asked
    /// variables — the distinct free variables of the query, in order of
    /// first occurrence — are each reported with a ground value; a branch
    /// that proves the goals but leaves an asked variable unbound is not
    /// an answer. The database is never changed and the fresh-name counter
    /// never moves backwards.
    ///
    /// Success is sound: for a query whose variables the counter cannot
    /// mint — any query the surface syntax can express — a proved goal
    /// list really is derivable from the database, under some
    /// substitution, by a chain of clause applications.
    ///
    /// And success is owed where a single step settles it: a one-goal
    /// query that some substitution matches onto a ground fact of the
    /// database is always answered positively, as long as the database is
    /// smaller than the step budget.
    #[verifier::loop_isolation(false)]
    pub fn solve(&mut self, goals: Vec<Term>) -> (st: Status)
        requires
            old(self).vars_count >= 0,
        ensures
            final(self).rules@ == old(self).rules@,
            final(self).vars_count >= old(self).vars_count,
            final(self).asked_vars@.len() == 0,
            st.done ==> ({
                let asked = dedup_vars(spec_free_vars_seq(terms_model(goals@)));
                &&& st.var_to_term@.len() == asked.len()
                &&& (forall|i: int| 0 <= i < asked.len()
                    ==> (#[trigger] st.var_to_term@[i])@.var == asked[i])
                &&& (forall|i: int| 0 <= i < asked.len() ==> !spec_has_free_var(
                    (#[trigger] st.var_to_term@[i])@.term,
                ))
            }),
            !st.done ==> st.var_to_term@.len() == 0,
            (st.done && goals_settled(terms_model(goals@), old(self).vars_count as int))
                ==> goals_derived(rules_model(old(self).rules@), terms_model(goals@)),
            (goals@.len() == 1 && ground_fact_matches(
                rules_model(old(self).rules@),
                terms_model(goals@)[0],
            ) && old(self).rules@.len() + 2 <= STEP_BUDGET) ==> st.done,
    {
        let ghost g0 = terms_model(goals@);
        let ghost c0 = old(self).vars_count as int;
        let ghost rm = rules_model(old(self).rules@);
        let ghost nrules = old(self).rules@.len() as int;
        let ghost hyp = goals@.len() == 1 && ground_fact_matches(rm, g0[0]) && nrules + 2
            <= STEP_BUDGET;
        let ghost (ri_star, theta_star): (int, SpecSubstMap) = if hyp {
            choose|ri: int, theta: SpecSubstMap| ground_fact_matches_at(rm, ri, theta, g0[0])
        } else {
            (0int, Map::empty())
        };
        proof {
            if hyp {
                assert(ground_fact_matches_at(rm, ri_star, theta_star, g0[0]));
            }
        }
        let fv = Term::free_vars_sum(&goals);
        let asked = crate::expr::dedup_strings(&fv);
        let ghost asked_model = dedup_vars(spec_free_vars_seq(terms_model(goals@)));
        self.asked_vars = asked;
        self.queue.clear();
        self.queue.push_back(QueueItem { goals, substs: Vec::new() });
        proof {
            assert forall|q: int| 0 <= q < self.queue@.len() implies goals_settled(g0, c0)
                ==> item_ok(rm, g0, #[trigger] self.queue@[q], self.vars_count as int) by {
                let item0 = self.queue@[0];
                assert(terms_model(item0.goals@) == g0);
                assert(subs_model(item0.substs@).len() == 0);
            }
            assert(terms_model(self.queue@[0].goals@) == g0);
            assert(subs_model(self.queue@[0].substs@).len() == 0);
            assert(self.queue@[0].substs@.len() == 0);
        }
        let mut steps: u64 = 0;
        while steps < STEP_BUDGET
            invariant
                self.rules@ == old(self).rules@,
                self.vars_count >= old(self).vars_count,
                self.vars_count >= 0,
                strings_model(self.asked_vars@) == asked_model,
                goals_settled(g0, c0) ==> forall|q: int| 0 <= q < self.queue@.len()
                    ==> item_ok(rm, g0, #[trigger] self.queue@[q], self.vars_count as int),
                hyp ==> ({
                    ||| (steps >= 1 && exists|p: int|
                        0 <= p < self.queue@.len() && #[trigger] winner(
                            self.queue@[p],
                            asked_model,
                        ) && p + steps <= 1 + nrules)
                    ||| (steps == 0 && self.queue@.len() == 1 && self.queue@[0].goals@.len() == 1
                        && terms_model(self.queue@[0].goals@) == g0
                        && self.queue@[0].substs@.len() == 0)
                }),
            decreases STEP_BUDGET - steps,
        {
            let ghost steps0 = steps;
            steps = steps + 1;
            let ghost qpre = self.queue@;
            let item = match self.queue.pop_front() {
                None => {
                    proof {
                        if hyp {
                            assert(false);
                        }
                    }
                    self.asked_vars.clear();
                    return Status { done: false, var_to_term: Vec::new() };
                }
                Some(item) => item,
            };
            proof {
                assert forall|q: int| 0 <= q < self.queue@.len() implies goals_settled(g0, c0)
                    ==> item_ok(rm, g0, #[trigger] self.queue@[q], self.vars_count as int) by {
                    assert(self.queue@[q] == qpre[q + 1]);
                }
            }
            let ghost gm_item = terms_model(item.goals@);
            let ghost vc_head = self.vars_count as int;
            let mut item_goals = item.goals;
            let substs = item.substs;
            let ghost sigma_i = subs_model(substs@);
            match item_goals.pop() {
                None => {
                    // This branch proved all its goals: ground the asked
                    // variables by applying its bindings, first to last,
                    // which fully resolves the chains this engine builds.
                    let ghost popped_grounds = (forall|v: int|
                        0 <= v < asked_model.len() ==> !spec_has_free_var(
                            apply_list(sigma_i, SpecTerm::Var(#[trigger] asked_model[v])),
                        ));
                    let mut bindings: Vec<Subst> = Vec::new();
                    let mut ok = true;
                    let mut i: usize = 0;
                    while i < self.asked_vars.len()
                        invariant
                            i <= self.asked_vars@.len(),
                            strings_model(self.asked_vars@) == asked_model,
                            asked_model.len() == self.asked_vars@.len(),
                            popped_grounds ==> ok,
                            ok ==> bindings@.len() == i as int,
                            ok ==> forall|j: int| 0 <= j < i
                                ==> (#[trigger] bindings@[j])@.var == asked_model[j],
                            ok ==> forall|j: int| 0 <= j < i ==> !spec_has_free_var(
                                (#[trigger] bindings@[j])@.term,
                            ),
                        decreases self.asked_vars@.len() - i,
                    {
                        let var_term = Term::Var(self.asked_vars[i].clone());
                        let t = var_term.subst_all(&substs);
                        proof {
                            assert(var_term@ == SpecTerm::Var(asked_model[i as int]));
                        }
                        if t.has_free_var() {
                            ok = false;
                        } else if ok {
                            bindings.push(Subst { var: self.asked_vars[i].clone(), term: t });
                        }
                        i = i + 1;
                    }
                    if ok {
                        self.asked_vars.clear();
                        proof {
                            if goals_settled(g0, c0) {
                                assert(item_ok(rm, g0, qpre[0], vc_head));
                                assert(gm_item.len() == 0);
                                assert(all_derivable(rm, gm_item, sigma_i, Map::empty()));
                                assert(all_derivable(rm, g0, sigma_i, Map::empty()));
                                assert forall|j: int| 0 <= j < g0.len() implies derivable(
                                    rm,
                                    apply_list(sigma_i, #[trigger] g0[j]),
                                ) by {
                                    assert(derivable(
                                        rm,
                                        applied(sigma_i, Map::empty(), g0[j]),
                                    ));
                                    lemma_map_apply_empty(apply_list(sigma_i, g0[j]));
                                }
                                assert(derived_under(rm, g0, sigma_i));
                            }
                        }
                        return Status { done: true, var_to_term: bindings };
                    }
                    // Policy for a proof that leaves an asked variable
                    // unbound: the branch is not an answer; keep searching.
                    proof {
                        if hyp {
                            // The query item holds one goal, so this
                            // empty-goal branch came later: a winner was
                            // already waiting, and it was not this branch,
                            // whose bindings failed to ground the answer.
                            assert(steps0 >= 1) by {
                                if steps0 == 0 {
                                    assert(qpre[0].goals@.len() == 1);
                                    assert(item.goals@.len() == 0);
                                }
                            }
                            let p = choose|p: int|
                                0 <= p < qpre.len() && #[trigger] winner(qpre[p], asked_model)
                                    && p + steps0 <= 1 + nrules;
                            assert(p >= 1) by {
                                if p == 0 {
                                    assert(winner(qpre[0], asked_model));
                                    assert(popped_grounds);
                                }
                            }
                            assert(self.queue@[p - 1] == qpre[p]);
                            assert(winner(self.queue@[p - 1], asked_model) && (p - 1) + steps
                                <= 1 + nrules);
                        }
                    }
                }
                Some(goal) => {
                    let ghost rest_m = terms_model(item_goals@);
                    proof {
                        crate::expr::lemma_terms_model(item.goals@);
                        crate::expr::lemma_terms_model(item_goals@);
                        assert(gm_item.drop_last() =~= rest_m);
                        assert(gm_item.last() == goal@);
                    }
                    let resolved_goal = goal.subst_all(&substs);
                    let ghost first_round = hyp && steps0 == 0;
                    proof {
                        if first_round {
                            assert(qpre[0] == item);
                            assert(gm_item == g0);
                            assert(item.substs@.len() == 0);
                            assert(sigma_i.len() == 0);
                            assert(sigma_i =~= Seq::<SpecBinding>::empty());
                            assert(goal@ == g0[0]);
                            assert(resolved_goal@ == g0[0]);
                        }
                        if hyp && steps0 >= 1 {
                            let p = choose|p: int|
                                0 <= p < qpre.len() && #[trigger] winner(qpre[p], asked_model)
                                    && p + steps0 <= 1 + nrules;
                            assert(p >= 1) by {
                                if p == 0 {
                                    assert(winner(qpre[0], asked_model));
                                    assert(item.goals@.len() > 0);
                                }
                            }
                            assert(self.queue@[p - 1] == qpre[p]);
                            assert(winner(self.queue@[p - 1], asked_model) && (p - 1) + steps0
                                <= nrules);
                        }
                    }
                    let mut ri: usize = 0;
                    while ri < self.rules.len()
                        invariant
                            self.rules@ == old(self).rules@,
                            self.vars_count >= old(self).vars_count,
                            self.vars_count >= vc_head,
                            self.vars_count >= 0,
                            strings_model(self.asked_vars@) == asked_model,
                            goals_settled(g0, c0) ==> forall|q: int| 0 <= q < self.queue@.len()
                                ==> item_ok(
                                rm,
                                g0,
                                #[trigger] self.queue@[q],
                                self.vars_count as int,
                            ),
                            ri as int <= nrules,
                            first_round ==> self.queue@.len() <= ri as int,
                            (first_round && ri as int > ri_star) ==> (exists|p: int|
                                0 <= p < self.queue@.len() && #[trigger] winner(
                                    self.queue@[p],
                                    asked_model,
                                )),
                            (hyp && steps0 >= 1) ==> (exists|p: int|
                                0 <= p < self.queue@.len() && #[trigger] winner(
                                    self.queue@[p],
                                    asked_model,
                                ) && p + steps0 <= nrules),
                        decreases self.rules@.len() - ri,
                    {
                        let rule = &self.rules[ri];
                        let mut rule_fv = rule.lhs.free_vars();
                        let mut rule_fv_rhs = Term::free_vars_sum(&rule.rhs);
                        rule_fv.append(&mut rule_fv_rhs);
                        proof {
                            assert(strings_model(rule_fv@).len() == rule_fv@.len());
                        }
                        // The fresh-name counter is a machine integer: a
                        // clause that would push it past its range is
                        // treated like one that fails to unify.
                        if rule_fv.len() <= (i32::MAX - self.vars_count) as usize {
                            proof {
                                assert(rule_free_vars(self.rules@[ri as int]@).len()
                                    == strings_model(rule_fv@).len()) by {
                                    crate::expr::lemma_terms_model(self.rules@[ri as int].rhs@);
                                    assert(strings_model(rule_fv@) =~= rule_free_vars(
                                        self.rules@[ri as int]@,
                                    ));
                                }
                            }
                            let ghost base = self.vars_count as int;
                            let inst = self.rules[ri].instantiate(&mut self.vars_count);
                            let ghost cafter = self.vars_count as int;
                            let ghost inst_lhs_m = inst.lhs@;
                            let ghost inst_rhs_m = terms_model(inst.rhs@);
                            let mut constraints: Vec<Constraint> = Vec::new();
                            constraints.push((resolved_goal.clone(), inst.lhs));
                            let ghost cs0m = constraints_model(constraints@);
                            proof {
                                assert(cs0m =~= seq![(resolved_goal@, inst_lhs_m)]);
                            }
                            match unify(&mut constraints) {
                                None => {
                                    proof {
                                        if first_round && ri as int == ri_star {
                                            assert(rm[ri as int] == self.rules@[ri as int]@);
                                            lemma_map_apply_ground(
                                                inst_map(rm[ri_star], base),
                                                rm[ri_star].lhs,
                                            );
                                            assert(inst_lhs_m == rm[ri_star].lhs);
                                            assert forall|ci: int| 0 <= ci < cs0m.len()
                                                implies map_apply(
                                                theta_star,
                                                (#[trigger] cs0m[ci]).0,
                                            ) == map_apply(theta_star, cs0m[ci].1) by {
                                                assert(cs0m[0] == (resolved_goal@, inst_lhs_m));
                                                lemma_map_apply_ground(
                                                    theta_star,
                                                    rm[ri_star].lhs,
                                                );
                                            }
                                            assert(map_unifies(theta_star, cs0m));
                                            assert(false);
                                        }
                                    }
                                }
                                Some(mu) => {
                                    let ghost mu_m = subs_model(mu@);
                                    let new_substs = compose(&substs, &mu);
                                    let mut new_goals = crate::expr::clone_terms(&item_goals);
                                    let ghost inst_rhs_vec_g = inst.rhs@;
                                    let mut body = inst.rhs;
                                    new_goals.append(&mut body);
                                    let ghost new_gs = terms_model(new_goals@);
                                    let ghost new_sb = subs_model(new_substs@);
                                    proof {
                                        crate::expr::lemma_terms_model(new_goals@);
                                        crate::expr::lemma_terms_model(inst.rhs@);
                                        assert(new_gs =~= rest_m + inst_rhs_m);
                                        assert(new_sb =~= sigma_i + mu_m);
                                        assert(apply_list(mu_m, resolved_goal@) == apply_list(
                                            mu_m,
                                            inst_lhs_m,
                                        )) by {
                                            assert(cs0m[0] == (resolved_goal@, inst_lhs_m));
                                        }
                                        if first_round && ri as int == ri_star {
                                            assert(rm[ri as int] == self.rules@[ri as int]@);
                                            lemma_map_apply_ground(
                                                inst_map(rm[ri_star], base),
                                                rm[ri_star].lhs,
                                            );
                                            assert(inst_lhs_m == rm[ri_star].lhs);
                                            lemma_apply_list_ground(mu_m, rm[ri_star].lhs);
                                            assert(apply_list(mu_m, g0[0]) == rm[ri_star].lhs);
                                            assert(new_sb =~= mu_m);
                                            lemma_dedup_vars(spec_free_vars_seq(g0));
                                            lemma_free_vars_occurs(g0[0]);
                                            assert(spec_free_vars_seq(g0) =~= spec_free_vars(
                                                g0[0],
                                            )) by {
                                                assert(g0.drop_last().len() == 0);
                                                assert(spec_free_vars_seq(g0.drop_last())
                                                    =~= Seq::<Seq<char>>::empty());
                                                assert(g0.last() == g0[0]);
                                            }
                                            assert forall|v: int| 0 <= v < asked_model.len()
                                                implies !spec_has_free_var(
                                                apply_list(
                                                    new_sb,
                                                    SpecTerm::Var(#[trigger] asked_model[v]),
                                                ),
                                            ) by {
                                                assert(asked_model.contains(asked_model[v]));
                                                assert(spec_free_vars_seq(g0).contains(
                                                    asked_model[v],
                                                ));
                                                assert(occurs(asked_model[v], g0[0]));
                                                lemma_apply_list_grounds_vars(
                                                    mu_m,
                                                    g0[0],
                                                    asked_model[v],
                                                );
                                                assert(apply_list(
                                                    new_sb,
                                                    SpecTerm::Var(asked_model[v]),
                                                ) == apply_list(
                                                    mu_m,
                                                    SpecTerm::Var(asked_model[v]),
                                                ));
                                            }
                                        }
                                        if goals_settled(g0, c0) {
                                            assert(item_ok(rm, g0, qpre[0], vc_head));
                                            lemma_settled_mono(gm_item, sigma_i, vc_head, base);
                                            assert(rm[ri as int] == self.rules@[ri as int]@);
                                            lemma_branch_step(
                                                rm,
                                                g0,
                                                gm_item,
                                                sigma_i,
                                                ri as int,
                                                base,
                                                cafter,
                                                mu_m,
                                                inst_lhs_m,
                                                inst_rhs_m,
                                                resolved_goal@,
                                                new_gs,
                                                new_sb,
                                            );
                                            lemma_branch_step_settled(
                                                gm_item,
                                                sigma_i,
                                                base,
                                                cafter,
                                                mu_m,
                                                inst_lhs_m,
                                                inst_rhs_m,
                                                resolved_goal@,
                                                new_gs,
                                                new_sb,
                                            );
                                        }
                                    }
                                    let ghost qmid = self.queue@;
                                    self.queue.push_back(
                                        QueueItem { goals: new_goals, substs: new_substs },
                                    );
                                    proof {
                                        assert forall|q: int| 0 <= q < self.queue@.len()
                                            implies goals_settled(g0, c0) ==> item_ok(
                                            rm,
                                            g0,
                                            #[trigger] self.queue@[q],
                                            self.vars_count as int,
                                        ) by {
                                            if q < qmid.len() {
                                                assert(self.queue@[q] == qmid[q]);
                                            } else {
                                                assert(self.queue@[q] == (QueueItem {
                                                    goals: new_goals,
                                                    substs: new_substs,
                                                }));
                                            }
                                        }
                                        if first_round && ri as int == ri_star {
                                            assert(item.goals@.len() == 1) by {
                                                crate::expr::lemma_terms_model(item.goals@);
                                            }
                                            assert(item_goals@.len() == 0);
                                            assert(new_goals@.len() == 0) by {
                                                crate::expr::lemma_terms_model(inst_rhs_vec_g);
                                            }
                                            assert(self.queue@[qmid.len() as int]
                                                == (QueueItem {
                                                goals: new_goals,
                                                substs: new_substs,
                                            }));
                                            assert(winner(
                                                self.queue@[qmid.len() as int],
                                                asked_model,
                                            ));
                                        } else if first_round && ri as int > ri_star {
                                            let p = choose|p: int|
                                                0 <= p < qmid.len() && #[trigger] winner(
                                                    qmid[p],
                                                    asked_model,
                                                );
                                            assert(self.queue@[p] == qmid[p]);
                                            assert(winner(self.queue@[p], asked_model));
                                        }
                                        if hyp && steps0 >= 1 {
                                            let p = choose|p: int|
                                                0 <= p < qmid.len() && #[trigger] winner(
                                                    qmid[p],
                                                    asked_model,
                                                ) && p + steps0 <= nrules;
                                            assert(self.queue@[p] == qmid[p]);
                                            assert(winner(self.queue@[p], asked_model) && p
                                                + steps0 <= nrules);
                                        }
                                    }
                                }
                            }
                        } else {
                            proof {
                                if first_round && ri as int == ri_star {
                                    assert(rm[ri as int] == self.rules@[ri as int]@);
                                    lemma_ground_free_vars_empty(rm[ri_star].lhs);
                                    assert(rule_free_vars(rm[ri_star]).len() == 0);
                                    assert(strings_model(rule_fv@).len() == rule_free_vars(
                                        self.rules@[ri as int]@,
                                    ).len()) by {
                                        crate::expr::lemma_terms_model(
                                            self.rules@[ri as int].rhs@,
                                        );
                                        assert(strings_model(rule_fv@) =~= rule_free_vars(
                                            self.rules@[ri as int]@,
                                        ));
                                    }
                                    assert(rule_fv@.len() == 0);
                                    assert(false);
                                }
                            }
                        }
                        ri = ri + 1;
                    }
                    proof {
                        if hyp {
                            if first_round {
                                assert(ri_star < nrules);
                                let p = choose|p: int|
                                    0 <= p < self.queue@.len() && #[trigger] winner(
                                        self.queue@[p],
                                        asked_model,
                                    );
                                assert(winner(self.queue@[p], asked_model) && p + steps <= 1
                                    + nrules);
                            } else {
                                let p = choose|p: int|
                                    0 <= p < self.queue@.len() && #[trigger] winner(
                                        self.queue@[p],
                                        asked_model,
                                    ) && p + steps0 <= nrules;
                                assert(winner(self.queue@[p], asked_model) && p + steps <= 1
                                    + nrules);
                            }
                        }
                    }
                }
            }
        }
        // Only the budget can end the loop: no derivation found in time.
        proof {
            if hyp {
                assert(steps >= STEP_BUDGET);
                if steps == 0 {
                    assert(false);
                } else {
                    let p = choose|p: int|
                        0 <= p < self.queue@.len() && #[trigger] winner(
                            self.queue@[p],
                            asked_model,
                        ) && p + steps <= 1 + nrules;
                    assert(false);
                }
            }
        }
        self.asked_vars.clear();
        Status { done: false, var_to_term: Vec::new() }
    }
}

} // verus!
