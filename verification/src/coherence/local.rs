//! Impls of a trait that every impl is allowed for: they pass the orphan
//! check, whatever their parameters are.
use vstd::prelude::*;
use crate::coherence::orphan::{orphan_goal, passes_orphan_check};
use crate::coherence::{Database, Program};
use crate::formula::{
    instantiate_all, lemma_instantiate_apply, ApplicationView, ClauseView, GoalView, TermView,
};
use crate::infer::{
    lemma_replace_apply, lemma_resolve_apply, replace_all, resolve_all, SlotView, TableView,
    Unified,
};
use crate::solve::{
    attempt, decision, fresh_placeholders, fresh_variables, open_root, resolve_with, root_outcome,
    search, Outcome, DEPTH_LIMIT,
};

verus! {

/// Whether the term is made of constructors and of the variables that
/// `binders` binders bind.
pub open spec fn closed(t: TermView, binders: nat) -> bool
    decreases t,
{
    match t {
        TermView::Apply(_, args) => forall|k: int|
            0 <= k < args.len() ==> closed(#[trigger] args[k], binders),
        TermView::Bound(i) => i < binders,
        _ => false,
    }
}

/// Whether the term is made of constructors and of placeholders of the
/// first universe.
pub open spec fn inert(t: TermView) -> bool
    decreases t,
{
    match t {
        TermView::Apply(_, args) => forall|k: int| 0 <= k < args.len() ==> inert(#[trigger] args[k]),
        TermView::Rigid(u, _) => u == 1,
        _ => false,
    }
}

/// A closed term, with the placeholders of the first universe for its
/// bound variables, is inert.
pub proof fn lemma_closed_inert(t: TermView, binders: nat)
    requires
        closed(t, binders),
    ensures
        inert(t.instantiate(0, fresh_placeholders(1, binders))),
    decreases t,
{
    let values = fresh_placeholders(1, binders);
    match t {
        TermView::Apply(name, args) => {
            lemma_instantiate_apply(name, args, 0, values);
            let made = instantiate_all(args, 0, values);
            let whole = TermView::Apply(name, made);
            assert(whole->Apply_1 == made);
            assert forall|k: int| 0 <= k < made.len() implies inert(#[trigger] made[k]) by {
                assert(closed(t->Apply_1[k], binders));
                lemma_closed_inert(args[k], binders);
            }
        },
        _ => {},
    }
}

/// An inert term mentions no variable, is visible from the first universe,
/// and stays as it is under every table and replacement.
pub proof fn lemma_inert(t: TermView, table: TableView, x: nat, by: TermView, v: nat)
    requires
        inert(t),
    ensures
        t.resolve(table) == t,
        t.replace(x, by) == t,
        !t.mentions(v),
        t.visible_from(1),
    decreases t,
{
    match t {
        TermView::Apply(name, args) => {
            assert forall|k: int| 0 <= k < args.len() implies (#[trigger] args[k]).resolve(table)
                == args[k] && args[k].replace(x, by) == args[k] && !args[k].mentions(v)
                && args[k].visible_from(1) by {
                assert(inert(t->Apply_1[k]));
                lemma_inert(args[k], table, x, by, v);
            }
            lemma_resolve_apply(name, args, table);
            assert(resolve_all(args, table) =~= args);
            lemma_replace_apply(name, args, x, by);
            assert(replace_all(args, x, by) =~= args);
        },
        _ => {},
    }
}

/// The table of as many variables of the first universe as `ps` is long,
/// the first `i` of them bound to the terms of `ps`.
pub open spec fn partly_bound(ps: Seq<TermView>, i: nat) -> TableView {
    TableView {
        slots: Seq::new(
            ps.len(),
            |v: int|
                SlotView {
                    binding: if v < i {
                        Some(ps[v])
                    } else {
                        None
                    },
                    universe: 1,
                },
        ),
        universes: 1,
    }
}

/// The trait applied to the terms of `ps` up to `i` and to variables from
/// there on.
pub open spec fn partly_filled(name: Seq<char>, ps: Seq<TermView>, i: nat) -> TermView {
    TermView::Apply(
        name,
        Seq::new(
            ps.len(),
            |v: int|
                if v < i {
                    ps[v]
                } else {
                    TermView::Var(v as nat)
                },
        ),
    )
}

/// A trait applied to variables unifies with the trait applied to inert
/// terms: each variable in turn is bound to the term in its place.
pub proof fn lemma_fill(name: Seq<char>, ps: Seq<TermView>, i: nat)
    requires
        i <= ps.len(),
        forall|k: int| 0 <= k < ps.len() ==> inert(#[trigger] ps[k]),
    ensures
        partly_bound(ps, i).unify_args(
            partly_filled(name, ps, i),
            TermView::Apply(name, ps),
            i,
        ) == Some(Unified { table: partly_bound(ps, ps.len()), changed: i < ps.len() }),
    decreases ps.len() - i,
{
    let table = partly_bound(ps, i);
    let a = partly_filled(name, ps, i);
    let b = TermView::Apply(name, ps);
    assert(a->Apply_1.len() == ps.len());
    if i < ps.len() {
        let term = ps[i as int];
        assert(inert(term));
        lemma_inert(term, table, i, term, i);
        assert(a->Apply_1[i as int] == TermView::Var(i));
        let bound = table.bind(i, term);
        assert(bound is Some);
        let next = partly_bound(ps, i + 1);
        assert forall|v: int| 0 <= v < ps.len() implies (#[trigger] bound->0.slots[v])
            == next.slots[v] by {
            assert(inert(ps[v]));
            lemma_inert(ps[v], table, i, term, v as nat);
            lemma_inert(term, table, i, term, v as nat);
        }
        assert(bound->0.slots =~= next.slots);
        assert(bound == Some(next));
        table.lemma_bind_unbound(i, term);
        assert(table.unify_resolved(TermView::Var(i), term) == Some(
            Unified { table: next, changed: true },
        ));
        lemma_resolve_apply(name, a->Apply_1, next);
        assert forall|v: int| 0 <= v < ps.len() implies (#[trigger] a->Apply_1[v]).resolve(next)
            == partly_filled(name, ps, i + 1)->Apply_1[v] by {
            if v < i {
                assert(inert(ps[v]));
                lemma_inert(ps[v], next, 0, term, 0);
            }
        }
        assert(resolve_all(a->Apply_1, next) =~= partly_filled(name, ps, i + 1)->Apply_1);
        assert(a.resolve(next) == partly_filled(name, ps, i + 1));
        lemma_resolve_apply(name, ps, next);
        assert forall|v: int| 0 <= v < ps.len() implies (#[trigger] ps[v]).resolve(next)
            == ps[v] by {
            assert(inert(ps[v]));
            lemma_inert(ps[v], next, 0, term, 0);
        }
        assert(resolve_all(ps, next) =~= ps);
        assert(b.resolve(next) == b);
        lemma_fill(name, ps, i + 1);
    }
}

/// The clause that allows every impl of the trait `name` of `k`
/// parameters.
pub open spec fn allow_clause(name: Seq<char>, k: nat) -> ClauseView {
    ClauseView {
        binders: k,
        condition: None,
        conclusion: ApplicationView {
            name: "LocalImplAllowed"@,
            args: seq![TermView::Apply(name, Seq::new(k, |v: int| TermView::Bound(v as nat)))],
        },
    }
}

/// Whether `clause` says nothing of allowed impls.
pub open spec fn silent(clause: ClauseView) -> bool {
    clause.conclusion.name != "LocalImplAllowed"@
}

/// Whether the clauses allow every impl of the trait `name` of `k`
/// parameters, by one clause, and say nothing else of allowed impls.
pub open spec fn allows(env: Seq<ClauseView>, name: Seq<char>, k: nat) -> bool {
    exists|at: int|
        0 <= at < env.len() && #[trigger] env[at] == allow_clause(name, k) && forall|j: int|
            0 <= j < env.len() && j != at ==> silent(#[trigger] env[j])
}

/// The atom that an impl of the trait `name` for `ps` is allowed.
pub open spec fn allowed_atom(name: Seq<char>, ps: Seq<TermView>) -> ApplicationView {
    ApplicationView { name: "LocalImplAllowed"@, args: seq![TermView::Apply(name, ps)] }
}

/// The table of one universe and no variable.
pub open spec fn opened() -> TableView {
    TableView::empty().with_universe()
}

/// Clauses that say nothing of allowed impls do not prove that an impl is
/// allowed.
pub proof fn lemma_silent(
    env: Seq<ClauseView>,
    candidates: Seq<ClauseView>,
    name: Seq<char>,
    ps: Seq<TermView>,
    fuel: nat,
)
    requires
        forall|j: int| 0 <= j < candidates.len() ==> silent(#[trigger] candidates[j]),
    ensures
        resolve_with(env, candidates, allowed_atom(name, ps), opened(), 1, fuel)
            == Outcome::Answers(Seq::empty()),
    decreases candidates.len(),
{
    if candidates.len() > 0 {
        let rest = candidates.drop_first();
        assert(silent(candidates[0]));
        assert forall|j: int| 0 <= j < rest.len() implies silent(#[trigger] rest[j]) by {
            assert(rest[j] == candidates[j + 1]);
        }
        lemma_silent(env, rest, name, ps, fuel);
        assert(attempt(env, candidates[0], allowed_atom(name, ps), opened(), 1, fuel)
            == Outcome::Answers(Seq::empty()));
        assert(Seq::<TableView>::empty() + Seq::<TableView>::empty() =~= Seq::<TableView>::empty());
    }
}

/// The clause that allows every impl of a trait proves, on one branch,
/// that an impl of the trait for inert terms is allowed.
pub proof fn lemma_allowed(env: Seq<ClauseView>, name: Seq<char>, ps: Seq<TermView>, fuel: nat)
    requires
        forall|k: int| 0 <= k < ps.len() ==> inert(#[trigger] ps[k]),
    ensures
        attempt(env, allow_clause(name, ps.len()), allowed_atom(name, ps), opened(), 1, fuel)
            == Outcome::Answers(seq![partly_bound(ps, ps.len())]),
{
    let k = ps.len();
    let clause = allow_clause(name, k);
    let app = allowed_atom(name, ps);
    let table = opened();
    let values = fresh_variables(0, k);
    let start = partly_bound(ps, 0);
    let done = partly_bound(ps, k);
    let a = partly_filled(name, ps, 0);
    let b = TermView::Apply(name, ps);
    let pattern = Seq::new(k, |v: int| TermView::Bound(v as nat));
    assert(table.with_variables(k, 1).slots =~= start.slots);
    lemma_instantiate_apply(name, pattern, 0, values);
    assert(instantiate_all(pattern, 0, values) =~= a->Apply_1);
    assert(instantiate_all(clause.conclusion.args, 0, values) =~= seq![a]);
    let head = clause.conclusion.instantiate(0, values);
    assert(head == ApplicationView { name: "LocalImplAllowed"@, args: seq![a] });
    let left = TermView::Apply("LocalImplAllowed"@, seq![a]);
    let right = TermView::Apply("LocalImplAllowed"@, seq![b]);
    lemma_resolve_apply(name, a->Apply_1, start);
    assert(resolve_all(a->Apply_1, start) =~= a->Apply_1);
    assert(a.resolve(start) == a);
    lemma_resolve_apply(name, ps, start);
    assert forall|v: int| 0 <= v < ps.len() implies (#[trigger] ps[v]).resolve(start) == ps[v] by {
        assert(inert(ps[v]));
        lemma_inert(ps[v], start, 0, ps[v], 0);
    }
    assert(resolve_all(ps, start) =~= ps);
    assert(b.resolve(start) == b);
    lemma_resolve_apply("LocalImplAllowed"@, seq![a], start);
    lemma_resolve_apply("LocalImplAllowed"@, seq![b], start);
    assert(resolve_all(seq![a], start) =~= seq![a]);
    assert(resolve_all(seq![b], start) =~= seq![b]);
    assert(left.resolve(start) == left);
    assert(right.resolve(start) == right);
    lemma_fill(name, ps, 0);
    start.lemma_unify_resolved_progress(a, b);
    assert(start.unify_resolved(a, b) == Some(Unified { table: done, changed: 0 < k }));
    if k == 0 {
        assert(done.slots =~= start.slots);
        assert(start.unify_args(left, right, 1) == Some(Unified { table: start, changed: false }));
    } else {
        lemma_resolve_apply("LocalImplAllowed"@, seq![a], done);
        lemma_resolve_apply("LocalImplAllowed"@, seq![b], done);
        assert(done.unify_args(left.resolve(done), right.resolve(done), 1) == Some(
            Unified { table: done, changed: false },
        ));
    }
    assert(start.unify_args(left, right, 0) == Some(Unified { table: done, changed: 0 < k }));
    assert(start.unify_resolved(left, right) == Some(Unified { table: done, changed: 0 < k }));
    assert(start.unify_applications(head, app) == Some(done));
}

/// Where one of the clauses allows every impl of a trait and the others
/// are silent, an impl of the trait for inert terms is allowed on one
/// branch.
pub proof fn lemma_allowed_once(
    env: Seq<ClauseView>,
    candidates: Seq<ClauseView>,
    at: int,
    name: Seq<char>,
    ps: Seq<TermView>,
    fuel: nat,
)
    requires
        forall|k: int| 0 <= k < ps.len() ==> inert(#[trigger] ps[k]),
        0 <= at < candidates.len(),
        candidates[at] == allow_clause(name, ps.len()),
        forall|j: int| 0 <= j < candidates.len() && j != at ==> silent(#[trigger] candidates[j]),
    ensures
        resolve_with(env, candidates, allowed_atom(name, ps), opened(), 1, fuel)
            == Outcome::Answers(seq![partly_bound(ps, ps.len())]),
    decreases candidates.len(),
{
    let rest = candidates.drop_first();
    let answer = partly_bound(ps, ps.len());
    if at == 0 {
        lemma_allowed(env, name, ps, fuel);
        assert forall|j: int| 0 <= j < rest.len() implies silent(#[trigger] rest[j]) by {
            assert(rest[j] == candidates[j + 1]);
        }
        lemma_silent(env, rest, name, ps, fuel);
        assert(attempt(env, candidates[0], allowed_atom(name, ps), opened(), 1, fuel)
            == Outcome::Answers(seq![answer]));
        assert(seq![answer] + Seq::<TableView>::empty() =~= seq![answer]);
    } else {
        assert(silent(candidates[0]));
        assert(rest[at - 1] == candidates[at]);
        assert forall|j: int| 0 <= j < rest.len() && j != at - 1 implies silent(
            #[trigger] rest[j],
        ) by {
            assert(rest[j] == candidates[j + 1]);
        }
        lemma_allowed_once(env, rest, at - 1, name, ps, fuel);
        assert(attempt(env, candidates[0], allowed_atom(name, ps), opened(), 1, fuel)
            == Outcome::Answers(Seq::empty()));
        assert(Seq::<TableView>::empty() + seq![answer] =~= seq![answer]);
    }
}

/// An impl of a trait that every impl is allowed for passes the orphan
/// check: where one clause of the program allows every impl of the trait,
/// and no other clause speaks of allowed impls, the check of an impl whose
/// trait reference is made of constructors and of the impl's own
/// parameters succeeds.
pub proof fn law_allowed_impl_passes(program: Program, id: nat)
    requires
        id < program.impl_count(),
        allows(
            program.environment.visible(),
            program.name_of(program.impl_view(id).trait_id),
            program.impl_view(id).parameters.len(),
        ),
        forall|k: int|
            0 <= k < program.impl_view(id).parameters.len() ==> closed(
                #[trigger] program.impl_view(id).parameters[k],
                program.impl_view(id).binders,
            ),
    ensures
        passes_orphan_check(&program, id),
{
    let env = program.environment.visible();
    let datum = program.impl_view(id);
    let name = program.name_of(datum.trait_id);
    let goal = orphan_goal(name, datum);
    let values = fresh_placeholders(1, datum.binders);
    let ps = instantiate_all(datum.parameters, 0, values);
    let fuel = DEPTH_LIMIT as nat;
    assert forall|k: int| 0 <= k < ps.len() implies inert(#[trigger] ps[k]) by {
        lemma_closed_inert(datum.parameters[k], datum.binders);
    }
    lemma_instantiate_apply(name, datum.parameters, 0, values);
    assert(instantiate_all(seq![TermView::Apply(name, datum.parameters)], 0, values) =~= seq![
        TermView::Apply(name, ps),
    ]);
    let body = GoalView::Apply(
        ApplicationView {
            name: "LocalImplAllowed"@,
            args: seq![TermView::Apply(name, datum.parameters)],
        },
    );
    assert(body.instantiate(0, values) == GoalView::Apply(allowed_atom(name, ps)));
    let at = choose|at: int|
        0 <= at < env.len() && #[trigger] env[at] == allow_clause(name, datum.parameters.len())
            && forall|j: int| 0 <= j < env.len() && j != at ==> silent(#[trigger] env[j]);
    lemma_allowed_once(env, env, at, name, ps, fuel);
    assert(search(env, GoalView::Apply(allowed_atom(name, ps)), opened(), 1, fuel)
        == Outcome::Answers(seq![partly_bound(ps, ps.len())]));
    assert(search(env, goal, TableView::empty(), 0, fuel) == Outcome::Answers(
        seq![partly_bound(ps, ps.len())],
    ));
    assert(open_root(goal, TableView::empty()) == (goal, TableView::empty()));
    assert(root_outcome(env, goal) == Outcome::Answers(seq![partly_bound(ps, ps.len())]));
    assert(decision(env, goal) is Some);
}

} // verus!
