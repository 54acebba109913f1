//! The orphan check: an impl must be allowed where it stands.
use vstd::prelude::*;
use crate::coherence::{CoherenceError, CoherenceErrorView, Database, ImplDatumView, ImplId, TraitId};
use crate::formula::{
    duplicate_terms, lemma_view_apply, term_views, Application, ApplicationView, Goal, GoalView,
    Term, TermView,
};
use crate::solve::{Solution, SolutionView};

verus! {

/// The goal that the orphan check asks for an impl of the trait named
/// `name`: for all values of the impl's parameters, an impl of this trait
/// reference is allowed here. The polarity of the impl plays no part.
pub open spec fn orphan_goal(name: Seq<char>, datum: ImplDatumView) -> GoalView {
    GoalView::ForAll(
        datum.binders,
        Box::new(
            GoalView::Apply(
                ApplicationView {
                    name: "LocalImplAllowed"@,
                    args: seq![TermView::Apply(name, datum.parameters)],
                },
            ),
        ),
    )
}

/// Whether the program proves that the impl numbered `id` is allowed.
pub open spec fn passes_orphan_check<DB: Database>(db: &DB, id: nat) -> bool {
    db.answer(orphan_goal(db.name_of(db.impl_view(id).trait_id), db.impl_view(id)))
        matches Some(SolutionView::Unique(_))
}

/// Tests whether a local impl keeps the orphan rules: the goal of
/// [`orphan_goal`] must be proved, on one branch. An ambiguous answer fails
/// the check as no answer does.
pub fn perform_orphan_check<DB: Database>(db: &DB, impl_id: ImplId) -> (r: Result<
    (),
    CoherenceError,
>)
    requires
        impl_id.0 < db.impl_count(),
    ensures
        r is Ok <==> passes_orphan_check(db, impl_id.0 as nat),
        r matches Err(e) ==> e@ == CoherenceErrorView::FailedOrphanCheck(
            db.name_of(db.impl_view(impl_id.0 as nat).trait_id),
        ),
{
    let impl_datum = db.impl_datum(impl_id);
    let trait_ref = impl_datum.trait_ref.trait_ref();
    let trait_name = db.trait_name(TraitId(trait_ref.trait_id.0));
    let subject = Term::Apply(trait_name.clone(), duplicate_terms(&trait_ref.parameters));
    proof {
        lemma_view_apply(subject->Apply_0, subject->Apply_1);
    }
    let mut args: Vec<Term> = Vec::new();
    args.push(subject);
    assert(term_views(args@) =~= seq![TermView::Apply(trait_name@, impl_datum@.parameters)]);
    let impl_allowed = Goal::ForAll(
        impl_datum.binders,
        Box::new(
            Goal::Apply(Application { name: String::from_str("LocalImplAllowed"), args }),
        ),
    );
    proof {
        reveal_with_fuel(Goal::model, 2);
        assert(impl_allowed@ == orphan_goal(trait_name@, impl_datum@));
    }
    let is_allowed = match db.solve(&impl_allowed) {
        Some(Solution::Unique(_)) => true,
        _ => false,
    };
    if !is_allowed {
        return Err(CoherenceError::FailedOrphanCheck(trait_name));
    }
    Ok(())
}

} // verus!
