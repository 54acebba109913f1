//! Coherence: the priority that specialization gives to each impl, and the
//! data about impls and traits that the checks read.
use std::sync::Arc;
use vstd::prelude::*;
use crate::environment::Environment;
use crate::forest::{acyclic, ends_below, is_end, relaxed, specialization_depths};
use crate::formula::{
    term_views, Application, ApplicationView, ClauseView, Goal, GoalView, Term, TermView,
};
use crate::coherence::solve::{
    impl_specializes, impls_overlap, overlapping, specializes,
};
use crate::solve::{decision, decision_view, Solution, SolutionView, Solver, Strategy};

pub mod orphan;
pub mod solve;
pub mod local;

verus! {

/// What stops a coherence check; each kind names the trait at fault.
pub enum CoherenceError {
    /// Two impls of the trait overlap and neither specializes the other.
    OverlappingImpls(String),
    /// An impl of the trait is not allowed where it stands.
    FailedOrphanCheck(String),
}

/// The mathematical value of a [`CoherenceError`].
pub enum CoherenceErrorView {
    OverlappingImpls(Seq<char>),
    FailedOrphanCheck(Seq<char>),
}

impl View for CoherenceError {
    type V = CoherenceErrorView;

    open spec fn view(&self) -> CoherenceErrorView {
        match self {
            CoherenceError::OverlappingImpls(name) => CoherenceErrorView::OverlappingImpls(name@),
            CoherenceError::FailedOrphanCheck(name) => CoherenceErrorView::FailedOrphanCheck(
                name@,
            ),
        }
    }
}

impl CoherenceErrorView {
    /// The sentence that reports the error.
    pub open spec fn message(self) -> Seq<char> {
        match self {
            CoherenceErrorView::OverlappingImpls(name) => "overlapping impls of trait \""@ + name
                + "\""@,
            CoherenceErrorView::FailedOrphanCheck(name) => "impl for trait \""@ + name
                + "\" violates the orphan rules"@,
        }
    }
}

impl CoherenceError {
    /// The sentence that reports the error.
    pub fn message(&self) -> (r: String)
        ensures
            r@ == self@.message(),
    {
        match self {
            CoherenceError::OverlappingImpls(name) => {
                let mut out = String::from_str("overlapping impls of trait \"");
                out.append(name.as_str());
                out.append("\"");
                out
            },
            CoherenceError::FailedOrphanCheck(name) => {
                let mut out = String::from_str("impl for trait \"");
                out.append(name.as_str());
                out.append("\" violates the orphan rules");
                out
            },
        }
    }
}

/// The number of a trait.
pub struct TraitId(pub usize);

/// The number of an impl.
pub struct ImplId(pub usize);

/// A trait applied to its parameters, the implementing type first.
pub struct TraitRef {
    pub trait_id: TraitId,
    pub parameters: Vec<Term>,
}

/// A trait reference that an impl gives (`impl Trait for T`) or denies
/// (`impl !Trait for T`).
pub enum PolarizedTraitRef {
    Positive(TraitRef),
    Negative(TraitRef),
}

impl PolarizedTraitRef {
    /// The trait reference, whatever the polarity.
    pub open spec fn spec_trait_ref(&self) -> TraitRef {
        match self {
            PolarizedTraitRef::Positive(t) => *t,
            PolarizedTraitRef::Negative(t) => *t,
        }
    }

    /// The trait reference, whatever the polarity.
    pub fn trait_ref(&self) -> (r: &TraitRef)
        ensures
            *r == self.spec_trait_ref(),
    {
        match self {
            PolarizedTraitRef::Positive(t) => t,
            PolarizedTraitRef::Negative(t) => t,
        }
    }

    /// Whether the impl gives the trait.
    pub fn is_positive(&self) -> (r: bool)
        ensures
            r == (self is Positive),
    {
        match self {
            PolarizedTraitRef::Positive(_) => true,
            PolarizedTraitRef::Negative(_) => false,
        }
    }
}

/// What is known of one impl.
pub struct ImplDatum {
    /// How many generic parameters the impl binds.
    pub binders: usize,
    /// The trait reference, under the impl's binders.
    pub trait_ref: PolarizedTraitRef,
    /// What the impl asks of its parameters, under its binders.
    pub where_clauses: Vec<Application>,
    /// The rank that specialization gives the impl: 0 where no overlapping
    /// impl is less specific.
    pub specialization_priority: usize,
}

/// The mathematical value of an [`ImplDatum`].
pub struct ImplDatumView {
    pub binders: nat,
    pub positive: bool,
    pub trait_id: nat,
    pub parameters: Seq<TermView>,
    pub where_clauses: Seq<ApplicationView>,
    pub specialization_priority: nat,
}

/// The views of a sequence of applications, element by element.
pub open spec fn application_views(apps: Seq<Application>) -> Seq<ApplicationView> {
    Seq::new(apps.len(), |i: int| apps[i]@)
}

/// The views of a sequence of impls, element by element.
pub open spec fn impl_views(impls: Seq<ImplDatum>) -> Seq<ImplDatumView> {
    Seq::new(impls.len(), |i: int| impls[i]@)
}

impl View for ImplDatum {
    type V = ImplDatumView;

    open spec fn view(&self) -> ImplDatumView {
        ImplDatumView {
            binders: self.binders as nat,
            positive: self.trait_ref is Positive,
            trait_id: self.trait_ref.spec_trait_ref().trait_id.0 as nat,
            parameters: term_views(self.trait_ref.spec_trait_ref().parameters@),
            where_clauses: application_views(self.where_clauses@),
            specialization_priority: self.specialization_priority as nat,
        }
    }
}

/// What the coherence checks ask of the program at large.
pub trait Database {
    /// How many impls there are.
    spec fn impl_count(&self) -> nat;

    /// The impl numbered `id`.
    spec fn impl_view(&self, id: nat) -> ImplDatumView;

    /// The program's answer to a closed goal.
    spec fn answer(&self, goal: GoalView) -> Option<SolutionView>;

    /// The name of the trait numbered `id`.
    spec fn name_of(&self, id: nat) -> Seq<char>;

    /// The data of one impl.
    fn impl_datum(&self, id: ImplId) -> (r: &ImplDatum)
        requires
            id.0 < self.impl_count(),
        ensures
            r@ == self.impl_view(id.0 as nat),
    ;

    /// Asks the program's prover for a closed goal.
    fn solve(&self, goal: &Goal) -> (r: Option<Solution>)
        ensures
            decision_view(r) == self.answer(goal@),
    ;

    /// The name of a trait, for messages.
    fn trait_name(&self, id: TraitId) -> (r: String)
        ensures
            r@ == self.name_of(id.0 as nat),
    ;
}

/// A program: its impls, the names of its traits, and the clauses that its
/// items lower to.
pub struct Program {
    pub impl_data: Vec<ImplDatum>,
    pub trait_names: Vec<String>,
    pub environment: Arc<Environment>,
}

impl Database for Program {
    open spec fn impl_count(&self) -> nat {
        self.impl_data@.len()
    }

    open spec fn impl_view(&self, id: nat) -> ImplDatumView {
        self.impl_data@[id as int]@
    }

    open spec fn answer(&self, goal: GoalView) -> Option<SolutionView> {
        decision(self.environment.visible(), goal)
    }

    open spec fn name_of(&self, id: nat) -> Seq<char> {
        if id < self.trait_names@.len() {
            self.trait_names@[id as int]@
        } else {
            Seq::empty()
        }
    }

    fn impl_datum(&self, id: ImplId) -> (r: &ImplDatum) {
        &self.impl_data[id.0]
    }

    fn solve(&self, goal: &Goal) -> (r: Option<Solution>) {
        Solver::decide(&self.environment, goal)
    }

    fn trait_name(&self, id: TraitId) -> (r: String) {
        if id.0 < self.trait_names.len() {
            self.trait_names[id.0].clone()
        } else {
            String::new()
        }
    }
}

/// The priorities of the impls that are an end of one of `edges`, by impl.
pub open spec fn noted_priorities(impls: Seq<ImplDatum>, edges: Seq<(usize, usize)>) -> Seq<
    Option<usize>,
> {
    Seq::new(
        impls.len(),
        |x: int|
            if is_end(edges, x as usize) {
                Some(impls[x].specialization_priority)
            } else {
                None
            },
    )
}

/// The impl with another priority.
pub open spec fn with_priority(datum: ImplDatum, priority: usize) -> ImplDatum {
    ImplDatum {
        binders: datum.binders,
        trait_ref: datum.trait_ref,
        where_clauses: datum.where_clauses,
        specialization_priority: priority,
    }
}

/// What [`Program::set_priorities`] makes of a program: the impls in the
/// forest of `edges` have their depths as priorities, 0 at a root and
/// otherwise one more than the highest priority among the impls that an
/// edge leads from; an impl that is no end of an edge has the priority 0;
/// nothing but the priorities has changed.
pub open spec fn prioritized(before: Program, after: Program, edges: Seq<(usize, usize)>) -> bool {
    &&& after.trait_names == before.trait_names
    &&& after.environment == before.environment
    &&& after.impl_data@.len() == before.impl_data@.len()
    &&& forall|x: int|
        0 <= x < before.impl_data@.len() ==> #[trigger] after.impl_data@[x] == with_priority(
            before.impl_data@[x],
            after.impl_data@[x].specialization_priority,
        )
    &&& forall|x: int|
        0 <= x < after.impl_data@.len() && !is_end(edges, x as usize) ==> (
        #[trigger] after.impl_data@[x]).specialization_priority == 0
    &&& relaxed(edges, noted_priorities(after.impl_data@, edges), Set::empty())
}

/// What the solver says of two impls.
pub enum Verdict {
    /// They are impls of different traits, or both deny their trait, or do
    /// not overlap.
    Unrelated,
    /// They overlap, and the second is the more specific.
    Edge(usize, usize),
    /// They overlap, and neither is the more specific alone.
    Conflict,
}

/// What the solver says of the impls `i` and `j`.
pub open spec fn verdict(
    env: Seq<ClauseView>,
    impls: Seq<ImplDatumView>,
    i: nat,
    j: nat,
    strategy: Strategy,
) -> Verdict {
    let first = impls[i as int];
    let second = impls[j as int];
    if first.trait_id != second.trait_id || (!first.positive && !second.positive) || !overlapping(
        env,
        first,
        second,
    ) {
        Verdict::Unrelated
    } else {
        let forth = specializes(env, first, second, strategy);
        let back = specializes(env, second, first, strategy);
        if forth && !back {
            Verdict::Edge(i as usize, j as usize)
        } else if back && !forth {
            Verdict::Edge(j as usize, i as usize)
        } else {
            Verdict::Conflict
        }
    }
}

/// The edges of the specialization forest that the pairs of impls from
/// `(i, j)` on give, in the order of the pairs: from the less specific impl
/// of an overlapping pair to the more specific. The first pair in conflict
/// ends the walk with the number of its trait.
pub open spec fn specializations(
    env: Seq<ClauseView>,
    impls: Seq<ImplDatumView>,
    strategy: Strategy,
    i: nat,
    j: nat,
) -> Result<Seq<(usize, usize)>, nat>
    decreases impls.len() - i, impls.len() - j,
{
    if i >= impls.len() {
        Ok(Seq::empty())
    } else if j >= impls.len() {
        specializations(env, impls, strategy, i + 1, i + 2)
    } else {
        match verdict(env, impls, i, j, strategy) {
            Verdict::Conflict => Err(impls[i as int].trait_id),
            Verdict::Unrelated => specializations(env, impls, strategy, i, j + 1),
            Verdict::Edge(a, b) => followed(
                seq![(a, b)],
                specializations(env, impls, strategy, i, j + 1),
            ),
        }
    }
}

/// The edges `found`, followed by what the rest of the walk gives.
pub open spec fn followed(found: Seq<(usize, usize)>, rest: Result<Seq<(usize, usize)>, nat>) -> Result<
    Seq<(usize, usize)>,
    nat,
> {
    match rest {
        Ok(more) => Ok(found + more),
        Err(t) => Err(t),
    }
}

impl Program {
    /// The walk of [`specializations`] over all pairs of impls.
    pub open spec fn forest(&self, env: Seq<ClauseView>, strategy: Strategy) -> Result<
        Seq<(usize, usize)>,
        nat,
    > {
        specializations(env, impl_views(self.impl_data@), strategy, 0, 1)
    }

    /// What the solver says of the impls `i` and `j`; see [`verdict`].
    fn compare(&self, env: &Arc<Environment>, i: usize, j: usize, strategy: Strategy) -> (r: Verdict)
        requires
            i < self.impl_data@.len(),
            j < self.impl_data@.len(),
        ensures
            r == verdict(env.visible(), impl_views(self.impl_data@), i as nat, j as nat, strategy),
    {
        let first = &self.impl_data[i];
        let second = &self.impl_data[j];
        if first.trait_ref.trait_ref().trait_id.0 != second.trait_ref.trait_ref().trait_id.0 {
            return Verdict::Unrelated;
        }
        if !first.trait_ref.is_positive() && !second.trait_ref.is_positive() {
            return Verdict::Unrelated;
        }
        if !impls_overlap(env, first, second) {
            return Verdict::Unrelated;
        }
        let forth = impl_specializes(env, first, second, strategy);
        let back = impl_specializes(env, second, first, strategy);
        if forth && !back {
            Verdict::Edge(i, j)
        } else if back && !forth {
            Verdict::Edge(j, i)
        } else {
            Verdict::Conflict
        }
    }

    /// Builds the forest of specialization relationships, as the list of
    /// its edges: every pair of impls of one trait is put to the solver,
    /// and each overlapping pair gives an edge from the less specific impl
    /// to the more specific. A pair that overlaps without such an order is
    /// an error.
    pub fn build_specialization_forest(&self, env: &Arc<Environment>, strategy: Strategy) -> (r:
        Result<Vec<(usize, usize)>, CoherenceError>)
        ensures
            match self.forest(env.visible(), strategy) {
                Ok(edges) => r matches Ok(v) && v@ == edges,
                Err(t) => r matches Err(e) && e@ == CoherenceErrorView::OverlappingImpls(
                    self.name_of(t),
                ),
            },
            r matches Ok(v) ==> ends_below(v@, self.impl_data@.len()),
    {
        let ghost impls = impl_views(self.impl_data@);
        let ghost total = self.forest(env.visible(), strategy);
        let n = self.impl_data.len();
        let mut found: Vec<(usize, usize)> = Vec::new();
        let mut i: usize = 0;
        assert(found@ + Seq::<(usize, usize)>::empty() =~= found@);
        while i < n
            invariant
                n == self.impl_data@.len(),
                impls == impl_views(self.impl_data@),
                i <= n,
                ends_below(found@, n as nat),
                total == self.forest(env.visible(), strategy),
                total == followed(
                    found@,
                    specializations(env.visible(), impls, strategy, i as nat, (i + 1) as nat),
                ),
            decreases n - i,
        {
            let mut j: usize = i + 1;
            while j < n
                invariant
                    n == self.impl_data@.len(),
                    impls == impl_views(self.impl_data@),
                    i < n,
                    i < j <= n,
                    ends_below(found@, n as nat),
                    total == self.forest(env.visible(), strategy),
                    total == followed(
                        found@,
                        specializations(env.visible(), impls, strategy, i as nat, j as nat),
                    ),
                decreases n - j,
            {
                let ghost before = found@;
                let ghost rest = specializations(
                    env.visible(),
                    impls,
                    strategy,
                    i as nat,
                    (j + 1) as nat,
                );
                match self.compare(env, i, j, strategy) {
                    Verdict::Unrelated => {},
                    Verdict::Edge(a, b) => {
                        found.push((a, b));
                        proof {
                            match rest {
                                Ok(more) => {
                                    assert(before + (seq![(a, b)] + more) =~= found@ + more);
                                },
                                Err(_) => {},
                            }
                        }
                    },
                    Verdict::Conflict => {
                        let id = TraitId(self.impl_data[i].trait_ref.trait_ref().trait_id.0);
                        return Err(CoherenceError::OverlappingImpls(self.trait_name(id)));
                    },
                }
                j = j + 1;
            }
            i = i + 1;
        }
        Ok(found)
    }

    /// Computes the specialization priority of every impl and writes it
    /// into the impl's data: the solver is asked about every pair of impls
    /// of one trait, the forest is built of what it says, each impl in it
    /// gets its depth, and each impl outside it gets 0. Nothing is written
    /// where a pair is in conflict.
    /// The forest must be free of cycles.
    pub fn record_specialization_priorities(
        &mut self,
        env: Arc<Environment>,
        strategy: Strategy,
    ) -> (r: Result<(), CoherenceError>)
        requires
            old(self).forest(env.visible(), strategy) matches Ok(edges) ==> acyclic(edges),
        ensures
            match old(self).forest(env.visible(), strategy) {
                Ok(edges) => r is Ok && prioritized(*old(self), *final(self), edges),
                Err(t) => r matches Err(e) && e@ == CoherenceErrorView::OverlappingImpls(
                    old(self).name_of(t),
                ) && *final(self) == *old(self),
            },
    {
        match self.build_specialization_forest(&env, strategy) {
            Ok(forest) => {
                self.set_priorities(&forest);
                Ok(())
            },
            Err(e) => Err(e),
        }
    }

    /// Gives every impl its priority: each of `edges` leads from an impl to
    /// a more specific one that overlaps it. An impl that no edge enters
    /// gets 0, whether it is in the forest or not; any other, one more than
    /// the highest priority among the impls that an edge leads from. The
    /// rest of the program stays as it is.
    pub fn set_priorities(&mut self, edges: &Vec<(usize, usize)>)
        requires
            ends_below(edges@, old(self).impl_data@.len()),
            acyclic(edges@),
        ensures
            prioritized(*old(self), *final(self), edges@),
    {
        let depths = specialization_depths(self.impl_data.len(), edges);
        let mut x: usize = 0;
        while x < depths.len()
            invariant
                x <= depths.len(),
                depths.len() == self.impl_data.len(),
                self.trait_names == old(self).trait_names,
                self.environment == old(self).environment,
                self.impl_data@.len() == old(self).impl_data@.len(),
                forall|y: int|
                    0 <= y < x ==> #[trigger] self.impl_data@[y] == with_priority(
                        old(self).impl_data@[y],
                        match depths@[y] {
                            Some(d) => d,
                            None => 0,
                        },
                    ),
                forall|y: int|
                    x <= y < depths.len() ==> #[trigger] self.impl_data@[y] == old(
                        self,
                    ).impl_data@[y],
            decreases depths.len() - x,
        {
            match depths[x] {
                Some(d) => {
                    self.impl_data[x].specialization_priority = d;
                },
                None => {
                    self.impl_data[x].specialization_priority = 0;
                },
            }
            x = x + 1;
        }
        assert(noted_priorities(self.impl_data@, edges@) =~= depths@);
    }
}

} // verus!
