//! The questions that coherence puts to the solver about two impls of one
//! trait: whether they overlap, and whether one is more specific.
use std::sync::Arc;
use vstd::prelude::*;
use crate::coherence::{application_views, ImplDatum, ImplDatumView};
use crate::environment::Environment;
use crate::formula::{
    duplicate_terms, term_views, Application, ApplicationView, Clause, ClauseView, Goal, GoalView,
};
use crate::solve::{root_outcome, Outcome, Search, Solver, Strategy};

verus! {

/// The atom that stands for "this impl applies to these parameters". The
/// name is a keyword, so that no clause of a program concludes it.
pub open spec fn applies(parameters: Seq<crate::formula::TermView>) -> ApplicationView {
    ApplicationView { name: "impl"@, args: parameters }
}

/// The conjunction of the atoms from position `i` on, the last of them
/// standing alone.
pub open spec fn chain(atoms: Seq<ApplicationView>, i: nat) -> GoalView
    decreases atoms.len() - i,
{
    if i + 1 < atoms.len() {
        GoalView::And(Box::new(GoalView::Apply(atoms[i as int])), Box::new(chain(atoms, i + 1)))
    } else {
        GoalView::Apply(atoms[i as int])
    }
}

/// `then`, with each of the atoms from position `i` on assumed as a fact.
pub open spec fn assuming(atoms: Seq<ApplicationView>, i: nat, then: GoalView) -> GoalView
    decreases atoms.len() - i,
{
    if i < atoms.len() {
        GoalView::Implies(
            Box::new(ClauseView { binders: 0, condition: None, conclusion: atoms[i as int] }),
            Box::new(assuming(atoms, i + 1, then)),
        )
    } else {
        then
    }
}

/// The impl as a clause: for all its parameters, it applies where its
/// where clauses hold.
pub open spec fn impl_clause(datum: ImplDatumView) -> ClauseView {
    ClauseView {
        binders: datum.binders,
        condition: if datum.where_clauses.len() == 0 {
            None
        } else {
            Some(chain(datum.where_clauses, 0))
        },
        conclusion: applies(datum.parameters),
    }
}

/// The goal that two impls overlap: with the first assumed as a clause,
/// some parameters of the second make it apply, and fulfil its where
/// clauses.
pub open spec fn overlap_goal(first: ImplDatumView, second: ImplDatumView) -> GoalView {
    GoalView::Implies(
        Box::new(impl_clause(first)),
        Box::new(
            GoalView::Exists(
                second.binders,
                Box::new(chain(seq![applies(second.parameters)] + second.where_clauses, 0)),
            ),
        ),
    )
}

/// The goal that `more` is at least as specific as `less`: for all
/// parameters of `more` that fulfil its where clauses, `less` applies.
pub open spec fn specializes_goal(less: ImplDatumView, more: ImplDatumView) -> GoalView {
    GoalView::ForAll(
        more.binders,
        Box::new(
            assuming(
                more.where_clauses,
                0,
                GoalView::Implies(
                    Box::new(impl_clause(less)),
                    Box::new(GoalView::Apply(applies(more.parameters))),
                ),
            ),
        ),
    )
}

/// Whether the search leaves open that the two impls overlap: it found a
/// branch, or ran into the depth limit.
pub open spec fn overlapping(env: Seq<ClauseView>, first: ImplDatumView, second: ImplDatumView) -> bool {
    match root_outcome(env, overlap_goal(first, second)) {
        Outcome::Overflow => true,
        Outcome::Answers(tables) => tables.len() > 0,
    }
}

/// Whether an outcome counts as a proof under `strategy`: some branch under
/// `DepthFirstSearch`, exactly one under `Rust`.
pub open spec fn proved(outcome: Outcome, strategy: Strategy) -> bool {
    match outcome {
        Outcome::Overflow => false,
        Outcome::Answers(tables) => match strategy {
            Strategy::DepthFirstSearch => tables.len() >= 1,
            Strategy::Rust => tables.len() == 1,
        },
    }
}

/// Whether the solver proves that `more` is at least as specific as `less`.
pub open spec fn specializes(
    env: Seq<ClauseView>,
    less: ImplDatumView,
    more: ImplDatumView,
    strategy: Strategy,
) -> bool {
    proved(root_outcome(env, specializes_goal(less, more)), strategy)
}

/// The atom that an impl applies to parameters like those given.
fn make_applies(parameters: &Vec<crate::formula::Term>) -> (r: Application)
    ensures
        r@ == applies(term_views(parameters@)),
{
    Application { name: String::from_str("impl"), args: duplicate_terms(parameters) }
}

/// The conjunction of the atoms from position `i` on; see [`chain`].
fn make_chain(atoms: &Vec<Application>, i: usize) -> (r: Goal)
    requires
        i < atoms.len(),
    ensures
        r@ == chain(application_views(atoms@), i as nat),
    decreases atoms.len() - i,
{
    proof {
        reveal_with_fuel(Goal::model, 2);
    }
    if i + 1 < atoms.len() {
        Goal::And(
            Box::new(Goal::Apply(atoms[i].duplicate())),
            Box::new(make_chain(atoms, i + 1)),
        )
    } else {
        Goal::Apply(atoms[i].duplicate())
    }
}

/// `then` with the atoms from position `i` on assumed; see [`assuming`].
fn make_assuming(atoms: &Vec<Application>, i: usize, then: Goal) -> (r: Goal)
    ensures
        r@ == assuming(application_views(atoms@), i as nat, then@),
    decreases atoms.len() - i,
{
    proof {
        reveal_with_fuel(Goal::model, 2);
        reveal_with_fuel(Clause::model, 2);
    }
    if i < atoms.len() {
        Goal::Implies(
            Box::new(Clause { binders: 0, condition: None, conclusion: atoms[i].duplicate() }),
            Box::new(make_assuming(atoms, i + 1, then)),
        )
    } else {
        then
    }
}

/// The impl as a clause; see [`impl_clause`].
fn make_impl_clause(datum: &ImplDatum) -> (r: Clause)
    ensures
        r@ == impl_clause(datum@),
{
    let condition = if datum.where_clauses.len() == 0 {
        None
    } else {
        Some(make_chain(&datum.where_clauses, 0))
    };
    Clause {
        binders: datum.binders,
        condition,
        conclusion: make_applies(&datum.trait_ref.trait_ref().parameters),
    }
}

/// The goal that two impls overlap; see [`overlap_goal`].
pub fn make_overlap_goal(first: &ImplDatum, second: &ImplDatum) -> (r: Goal)
    ensures
        r@ == overlap_goal(first@, second@),
{
    let mut atoms: Vec<Application> = Vec::new();
    atoms.push(make_applies(&second.trait_ref.trait_ref().parameters));
    let mut k: usize = 0;
    while k < second.where_clauses.len()
        invariant
            k <= second.where_clauses.len(),
            atoms.len() == k + 1,
            atoms@[0]@ == applies(second@.parameters),
            forall|j: int| 0 <= j < k ==> atoms@[j + 1]@ == second.where_clauses@[j]@,
        decreases second.where_clauses.len() - k,
    {
        atoms.push(second.where_clauses[k].duplicate());
        k = k + 1;
    }
    assert(application_views(atoms@) =~= seq![applies(second@.parameters)]
        + second@.where_clauses);
    proof {
        reveal_with_fuel(Goal::model, 3);
    }
    Goal::Implies(
        Box::new(make_impl_clause(first)),
        Box::new(Goal::Exists(second.binders, Box::new(make_chain(&atoms, 0)))),
    )
}

/// The goal that `more` is at least as specific as `less`; see
/// [`specializes_goal`].
pub fn make_specializes_goal(less: &ImplDatum, more: &ImplDatum) -> (r: Goal)
    ensures
        r@ == specializes_goal(less@, more@),
{
    proof {
        reveal_with_fuel(Goal::model, 3);
    }
    let then = Goal::Implies(
        Box::new(make_impl_clause(less)),
        Box::new(Goal::Apply(make_applies(&more.trait_ref.trait_ref().parameters))),
    );
    Goal::ForAll(more.binders, Box::new(make_assuming(&more.where_clauses, 0, then)))
}

/// Asks the solver whether two impls may overlap; see [`overlapping`].
pub fn impls_overlap(env: &Arc<Environment>, first: &ImplDatum, second: &ImplDatum) -> (r: bool)
    ensures
        r == overlapping(env.visible(), first@, second@),
{
    let goal = make_overlap_goal(first, second);
    match Solver::outcome(env, &goal) {
        Search::Overflow => true,
        Search::Answers(tables) => tables.len() > 0,
    }
}

/// Asks the solver whether `more` is at least as specific as `less`; see
/// [`specializes`].
pub fn impl_specializes(
    env: &Arc<Environment>,
    less: &ImplDatum,
    more: &ImplDatum,
    strategy: Strategy,
) -> (r: bool)
    ensures
        r == specializes(env.visible(), less@, more@, strategy),
{
    let goal = make_specializes_goal(less, more);
    match Solver::outcome(env, &goal) {
        Search::Overflow => false,
        Search::Answers(tables) => match strategy {
            Strategy::DepthFirstSearch => tables.len() >= 1,
            Strategy::Rust => tables.len() == 1,
        },
    }
}

} // verus!
