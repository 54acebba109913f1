//! Every answer is backed by a derivation: what it means for a goal to
//! hold under a table, and the proof that the search reports nothing else.
use vstd::prelude::*;
use crate::formula::{instantiate_all, ApplicationView, ClauseView, GoalView, TermView};
use crate::infer::{lemma_resolve_apply, resolve_all, TableView};
use crate::solve::{
    attempt, fresh_placeholders, fresh_variables, open_root, rendered, resolve_with, root_outcome,
    search, search_each, solutions, Outcome, Strategy, DEPTH_LIMIT,
};
use crate::unify_laws::{law_unify_sound, lemma_refines_itself, lemma_refines_twice};

verus! {

/// Whether `clause`, with `values` for its parameters, proves the atom
/// `app` under `table`: its conclusion resolves to the atom, and its
/// condition, if it has one, holds one level deeper.
pub open spec fn backs(
    env: Seq<ClauseView>,
    clause: ClauseView,
    values: Seq<TermView>,
    app: ApplicationView,
    table: TableView,
    depth: nat,
) -> bool
    decreases depth, 0nat,
{
    &&& values.len() == clause.binders
    &&& clause.conclusion.name == app.name
    &&& resolve_all(instantiate_all(clause.conclusion.args, 0, values), table) == resolve_all(
        app.args,
        table,
    )
    &&& match clause.condition {
        None => true,
        Some(g) => depth > 0 && holds(env, g.instantiate(0, values), table, (depth - 1) as nat),
    }
}

/// Marks the choice of a clause, or of a universe, with the values that
/// go with it: the handle by which such a choice is named in a proof.
pub open spec fn chosen(i: int, values: Seq<TermView>) -> bool {
    true
}

/// Whether `goal` holds under `table` by a derivation from the clauses
/// `env` that nests conditions at most `depth` deep: an atom is backed by
/// a clause; a conjunction holds in both parts; an implication holds with
/// its premise among the clauses; an existential goal holds for some
/// values; a universal goal holds for the placeholders of some universe.
/// (Instantiation keeps the height of a goal, so the comparisons of
/// heights are always true; they show that the definition is well
/// founded.)
pub open spec fn holds(env: Seq<ClauseView>, goal: GoalView, table: TableView, depth: nat) -> bool
    decreases depth, goal.height(),
{
    match goal {
        GoalView::Apply(app) => exists|i: int, values: Seq<TermView>|
            #[trigger] chosen(i, values) && 0 <= i < env.len() && backs(
                env,
                env[i],
                values,
                app,
                table,
                depth,
            ),
        GoalView::And(l, r) => holds(env, *l, table, depth) && holds(env, *r, table, depth),
        GoalView::Implies(c, g) => holds(seq![*c] + env, *g, table, depth),
        GoalView::ForAll(n, b) => exists|universe: nat|
            #[trigger] chosen(universe as int, fresh_placeholders(universe, n)) && b.instantiate(
                0,
                fresh_placeholders(universe, n),
            ).height() < goal.height() && holds(
                env,
                b.instantiate(0, fresh_placeholders(universe, n)),
                table,
                depth,
            ),
        GoalView::Exists(n, b) => exists|values: Seq<TermView>|
            #[trigger] chosen(0, values) && values.len() == n && b.instantiate(0, values).height()
                < goal.height() && holds(env, b.instantiate(0, values), table, depth),
    }
}

/// Terms that a table resolves to one term stay one under every table
/// that refines it.
pub proof fn lemma_refined_equal(
    before: TableView,
    after: TableView,
    xs: Seq<TermView>,
    ys: Seq<TermView>,
)
    requires
        before.refined_by(after),
        resolve_all(xs, before) == resolve_all(ys, before),
    ensures
        resolve_all(xs, after) == resolve_all(ys, after),
{
    assert(resolve_all(xs, before).len() == xs.len());
    assert(resolve_all(ys, before).len() == ys.len());
    assert forall|k: int| 0 <= k < xs.len() implies xs[k].resolve(after) == ys[k].resolve(after) by {
        assert(resolve_all(xs, before)[k] == xs[k].resolve(before));
        assert(resolve_all(ys, before)[k] == ys[k].resolve(before));
        assert(before.agrees(after, xs[k]));
        assert(before.agrees(after, ys[k]));
    }
    assert(resolve_all(xs, after) =~= resolve_all(ys, after));
}

/// What holds under a table holds under every table that refines it.
pub proof fn lemma_holds_stable(
    env: Seq<ClauseView>,
    goal: GoalView,
    before: TableView,
    after: TableView,
    depth: nat,
)
    requires
        before.refined_by(after),
        holds(env, goal, before, depth),
    ensures
        holds(env, goal, after, depth),
    decreases depth, goal.height(),
{
    match goal {
        GoalView::Apply(app) => {
            let (i, values) = choose|i: int, values: Seq<TermView>|
                #[trigger] chosen(i, values) && 0 <= i < env.len() && backs(
                    env,
                    env[i],
                    values,
                    app,
                    before,
                    depth,
                );
            let clause = env[i];
            lemma_refined_equal(
                before,
                after,
                instantiate_all(clause.conclusion.args, 0, values),
                app.args,
            );
            match clause.condition {
                None => {},
                Some(g) => {
                    lemma_holds_stable(
                        env,
                        g.instantiate(0, values),
                        before,
                        after,
                        (depth - 1) as nat,
                    );
                },
            }
            assert(chosen(i, values) && backs(env, env[i], values, app, after, depth));
        },
        GoalView::And(l, r) => {
            lemma_holds_stable(env, *l, before, after, depth);
            lemma_holds_stable(env, *r, before, after, depth);
        },
        GoalView::Implies(c, g) => {
            lemma_holds_stable(seq![*c] + env, *g, before, after, depth);
        },
        GoalView::ForAll(n, b) => {
            let universe = choose|universe: nat|
                #[trigger] chosen(universe as int, fresh_placeholders(universe, n))
                    && b.instantiate(0, fresh_placeholders(universe, n)).height() < goal.height()
                    && holds(env, b.instantiate(0, fresh_placeholders(universe, n)), before, depth);
            lemma_holds_stable(
                env,
                b.instantiate(0, fresh_placeholders(universe, n)),
                before,
                after,
                depth,
            );
            assert(chosen(universe as int, fresh_placeholders(universe, n)));
        },
        GoalView::Exists(n, b) => {
            let values = choose|values: Seq<TermView>|
                #[trigger] chosen(0, values) && values.len() == n && b.instantiate(
                    0,
                    values,
                ).height() < goal.height() && holds(env, b.instantiate(0, values), before, depth);
            lemma_holds_stable(env, b.instantiate(0, values), before, after, depth);
            assert(chosen(0, values));
        },
    }
}

/// A term resolves by the slots of a table alone.
pub proof fn lemma_resolve_by_slots(first: TableView, second: TableView, y: TermView)
    requires
        forall|v: nat| first.binds(v) || second.binds(v) ==> first.binds(v) && second.binds(v)
            && first.slots[v as int].binding == second.slots[v as int].binding,
    ensures
        y.resolve(first) == y.resolve(second),
    decreases y,
{
    match y {
        TermView::Apply(name, args) => {
            lemma_resolve_apply(name, args, first);
            lemma_resolve_apply(name, args, second);
            assert forall|k: int| 0 <= k < args.len() implies (#[trigger] args[k]).resolve(first)
                == args[k].resolve(second) by {
                lemma_resolve_by_slots(first, second, args[k]);
            }
            assert(resolve_all(args, first) =~= resolve_all(args, second));
        },
        TermView::Var(v) => {
            if first.binds(v) {
                assert(second.binds(v));
            }
            if second.binds(v) {
                assert(first.binds(v));
            }
        },
        _ => {},
    }
}

/// A table with the same bindings, whatever else differs, is as well
/// formed as the table and refines it.
pub proof fn lemma_same_bindings(first: TableView, second: TableView)
    requires
        first.well_formed(),
        forall|v: nat| first.binds(v) || second.binds(v) ==> first.binds(v) && second.binds(v)
            && first.slots[v as int].binding == second.slots[v as int].binding,
    ensures
        second.well_formed(),
        first.refined_by(second),
{
    assert forall|v: int| 0 <= v < second.slots.len() implies ((
    #[trigger] second.slots[v]).binding matches Some(t) ==> second.settles(t)) by {
        if second.slots[v].binding is Some {
            assert(second.binds(v as nat));
            assert(first.binds(v as nat));
            let t = first.slots[v].binding->0;
            assert(first.settles(t));
            assert forall|w: nat| t.mentions(w) implies !second.binds(w) by {
                assert(!first.binds(w));
            }
        }
    }
    lemma_refines_itself(second);
    assert forall|y: TermView| #[trigger] first.agrees(second, y) by {
        lemma_resolve_by_slots(first, second, y);
        assert(second.agrees(second, y));
    }
}

/// More unbound variables, or one more universe, leave a table well formed
/// and refine it.
pub proof fn lemma_extended(table: TableView, n: nat, universe: nat)
    requires
        table.well_formed(),
    ensures
        table.with_variables(n, universe).well_formed(),
        table.refined_by(table.with_variables(n, universe)),
        table.with_universe().well_formed(),
        table.refined_by(table.with_universe()),
{
    lemma_same_bindings(table, table.with_variables(n, universe));
    lemma_same_bindings(table, table.with_universe());
}

/// Whether each of `answers` is a well-formed table that refines `before`
/// and under which `goal` holds.
pub open spec fn sound(
    env: Seq<ClauseView>,
    goal: GoalView,
    before: TableView,
    answers: Seq<TableView>,
    depth: nat,
) -> bool {
    forall|i: int|
        0 <= i < answers.len() ==> (#[trigger] answers[i]).well_formed() && before.refined_by(
            answers[i],
        ) && holds(env, goal, answers[i], depth)
}

/// Whether each of `answers` is a well-formed table that refines one of
/// `tables` and under which `goal` holds.
pub open spec fn sound_each(
    env: Seq<ClauseView>,
    goal: GoalView,
    tables: Seq<TableView>,
    answers: Seq<TableView>,
    depth: nat,
) -> bool {
    forall|i: int|
        0 <= i < answers.len() ==> (#[trigger] answers[i]).well_formed() && holds(
            env,
            goal,
            answers[i],
            depth,
        ) && exists|j: int| 0 <= j < tables.len() && (#[trigger] tables[j]).refined_by(answers[i])
}

/// The search is sound: each of its answers is a well-formed table that
/// refines the table it started from, and the goal holds under it.
pub proof fn lemma_search_sound(
    env: Seq<ClauseView>,
    goal: GoalView,
    table: TableView,
    universe: nat,
    fuel: nat,
)
    requires
        table.well_formed(),
    ensures
        search(env, goal, table, universe, fuel) matches Outcome::Answers(answers) ==> sound(
            env,
            goal,
            table,
            answers,
            fuel,
        ),
    decreases fuel, goal.height(), 0nat,
{
    match goal {
        GoalView::Apply(app) => {
            lemma_resolve_sound(env, env, app, table, universe, fuel);
        },
        GoalView::And(l, r) => {
            lemma_search_sound(env, *l, table, universe, fuel);
            match search(env, *l, table, universe, fuel) {
                Outcome::Overflow => {},
                Outcome::Answers(tables) => {
                    lemma_search_each_sound(env, *r, tables, universe, fuel);
                    match search_each(env, *r, tables, universe, fuel) {
                        Outcome::Overflow => {},
                        Outcome::Answers(answers) => {
                            assert forall|i: int| 0 <= i < answers.len() implies (
                            #[trigger] answers[i]).well_formed() && table.refined_by(answers[i])
                                && holds(env, goal, answers[i], fuel) by {
                                let j = choose|j: int|
                                    0 <= j < tables.len() && (#[trigger] tables[j]).refined_by(
                                        answers[i],
                                    );
                                lemma_refines_twice(table, tables[j], answers[i]);
                                lemma_holds_stable(env, *l, tables[j], answers[i], fuel);
                            }
                        },
                    }
                },
            }
        },
        GoalView::Implies(c, g) => {
            lemma_search_sound(seq![*c] + env, *g, table, universe, fuel);
        },
        GoalView::ForAll(n, b) => {
            if table.universes < usize::MAX {
                let inner = table.universes + 1;
                let body = b.instantiate(0, fresh_placeholders(inner, n));
                b.lemma_instantiate_height(0, fresh_placeholders(inner, n));
                lemma_extended(table, 0, 0);
                lemma_search_sound(env, body, table.with_universe(), inner, fuel);
                match search(env, body, table.with_universe(), inner, fuel) {
                    Outcome::Overflow => {},
                    Outcome::Answers(answers) => {
                        assert forall|i: int| 0 <= i < answers.len() implies (
                        #[trigger] answers[i]).well_formed() && table.refined_by(answers[i])
                            && holds(env, goal, answers[i], fuel) by {
                            lemma_refines_twice(table, table.with_universe(), answers[i]);
                            assert(holds(env, body, answers[i], fuel));
                            assert(chosen(inner as int, fresh_placeholders(inner, n)));
                        }
                    },
                }
            }
        },
        GoalView::Exists(n, b) => {
            let values = fresh_variables(table.slots.len(), n);
            let body = b.instantiate(0, values);
            let extended = table.with_variables(n, universe);
            b.lemma_instantiate_height(0, values);
            lemma_extended(table, n, universe);
            lemma_search_sound(env, body, extended, universe, fuel);
            match search(env, body, extended, universe, fuel) {
                Outcome::Overflow => {},
                Outcome::Answers(answers) => {
                    assert forall|i: int| 0 <= i < answers.len() implies (
                    #[trigger] answers[i]).well_formed() && table.refined_by(answers[i]) && holds(
                        env,
                        goal,
                        answers[i],
                        fuel,
                    ) by {
                        lemma_refines_twice(table, extended, answers[i]);
                        assert(holds(env, body, answers[i], fuel));
                        assert(chosen(0, values));
                    }
                },
            }
        },
    }
}

/// The search from each of several tables is sound.
pub proof fn lemma_search_each_sound(
    env: Seq<ClauseView>,
    goal: GoalView,
    tables: Seq<TableView>,
    universe: nat,
    fuel: nat,
)
    requires
        forall|j: int| 0 <= j < tables.len() ==> (#[trigger] tables[j]).well_formed(),
    ensures
        search_each(env, goal, tables, universe, fuel) matches Outcome::Answers(answers)
            ==> sound_each(env, goal, tables, answers, fuel),
    decreases fuel, goal.height(), tables.len() + 1,
{
    if tables.len() > 0 {
        let rest = tables.drop_first();
        lemma_search_sound(env, goal, tables[0], universe, fuel);
        assert forall|j: int| 0 <= j < rest.len() implies (#[trigger] rest[j]).well_formed() by {
            assert(rest[j] == tables[j + 1]);
        }
        lemma_search_each_sound(env, goal, rest, universe, fuel);
        match search(env, goal, tables[0], universe, fuel) {
            Outcome::Overflow => {},
            Outcome::Answers(first) => match search_each(env, goal, rest, universe, fuel) {
                Outcome::Overflow => {},
                Outcome::Answers(more) => {
                    let answers = first + more;
                    assert forall|i: int| 0 <= i < answers.len() implies (
                    #[trigger] answers[i]).well_formed() && holds(env, goal, answers[i], fuel)
                        && exists|j: int|
                        0 <= j < tables.len() && (#[trigger] tables[j]).refined_by(answers[i]) by {
                        if i < first.len() {
                            assert(answers[i] == first[i]);
                            assert(tables[0].refined_by(answers[i]));
                        } else {
                            assert(answers[i] == more[i - first.len()]);
                            let j = choose|j: int|
                                0 <= j < rest.len() && (#[trigger] rest[j]).refined_by(answers[i]);
                            assert(tables[j + 1] == rest[j]);
                            assert(tables[j + 1].refined_by(answers[i]));
                        }
                    }
                },
            },
        }
    }
}

/// Resolution against clauses of the environment is sound.
pub proof fn lemma_resolve_sound(
    env: Seq<ClauseView>,
    candidates: Seq<ClauseView>,
    app: ApplicationView,
    table: TableView,
    universe: nat,
    fuel: nat,
)
    requires
        table.well_formed(),
        forall|k: int| 0 <= k < candidates.len() ==> env.contains(#[trigger] candidates[k]),
    ensures
        resolve_with(env, candidates, app, table, universe, fuel) matches Outcome::Answers(
            answers,
        ) ==> sound(env, GoalView::Apply(app), table, answers, fuel),
    decreases fuel, 0nat, candidates.len() + 1,
{
    if candidates.len() > 0 {
        let rest = candidates.drop_first();
        assert(env.contains(candidates[0]));
        lemma_attempt_sound(env, candidates[0], app, table, universe, fuel);
        assert forall|k: int| 0 <= k < rest.len() implies env.contains(#[trigger] rest[k]) by {
            assert(rest[k] == candidates[k + 1]);
        }
        lemma_resolve_sound(env, rest, app, table, universe, fuel);
        match attempt(env, candidates[0], app, table, universe, fuel) {
            Outcome::Overflow => {},
            Outcome::Answers(first) => match resolve_with(env, rest, app, table, universe, fuel) {
                Outcome::Overflow => {},
                Outcome::Answers(more) => {
                    let answers = first + more;
                    assert forall|i: int| 0 <= i < answers.len() implies (
                    #[trigger] answers[i]).well_formed() && table.refined_by(answers[i]) && holds(
                        env,
                        GoalView::Apply(app),
                        answers[i],
                        fuel,
                    ) by {
                        if i < first.len() {
                            assert(answers[i] == first[i]);
                        } else {
                            assert(answers[i] == more[i - first.len()]);
                        }
                    }
                },
            },
        }
    }
}

/// Resolution against one clause of the environment is sound.
pub proof fn lemma_attempt_sound(
    env: Seq<ClauseView>,
    clause: ClauseView,
    app: ApplicationView,
    table: TableView,
    universe: nat,
    fuel: nat,
)
    requires
        table.well_formed(),
        env.contains(clause),
    ensures
        attempt(env, clause, app, table, universe, fuel) matches Outcome::Answers(answers)
            ==> sound(env, GoalView::Apply(app), table, answers, fuel),
    decreases fuel, 0nat, 0nat,
{
    let goal = GoalView::Apply(app);
    let at = choose|at: int| 0 <= at < env.len() && env[at] == clause;
    if clause.conclusion.name == app.name && clause.conclusion.args.len() == app.args.len() {
        let values = fresh_variables(table.slots.len(), clause.binders);
        let head = clause.conclusion.instantiate(0, values);
        let extended = table.with_variables(clause.binders, universe);
        lemma_extended(table, clause.binders, universe);
        let left = TermView::Apply(head.name, head.args);
        let right = TermView::Apply(app.name, app.args);
        law_unify_sound(extended, left, right);
        match extended.unify_applications(head, app) {
            None => {},
            Some(unified) => {
                lemma_refines_twice(table, extended, unified);
                lemma_resolve_apply(head.name, head.args, unified);
                lemma_resolve_apply(app.name, app.args, unified);
                assert(resolve_all(head.args, unified) == resolve_all(app.args, unified));
                match clause.condition {
                    None => {
                        assert(chosen(at, values) && backs(
                            env,
                            env[at],
                            values,
                            app,
                            unified,
                            fuel,
                        ));
                    },
                    Some(g) => {
                        if fuel > 0 {
                            let body = g.instantiate(0, values);
                            lemma_search_sound(env, body, unified, universe, (fuel - 1) as nat);
                            match search(env, body, unified, universe, (fuel - 1) as nat) {
                                Outcome::Overflow => {},
                                Outcome::Answers(answers) => {
                                    assert forall|i: int| 0 <= i < answers.len() implies (
                                    #[trigger] answers[i]).well_formed() && table.refined_by(
                                        answers[i],
                                    ) && holds(env, goal, answers[i], fuel) by {
                                        lemma_refines_twice(table, unified, answers[i]);
                                        lemma_refined_equal(
                                            unified,
                                            answers[i],
                                            head.args,
                                            app.args,
                                        );
                                        assert(chosen(at, values) && backs(
                                            env,
                                            env[at],
                                            values,
                                            app,
                                            answers[i],
                                            fuel,
                                        ));
                                    }
                                },
                            }
                        }
                    },
                }
            },
        }
    }
}

/// The root of a goal is reached through well-formed tables, and what
/// makes the root hold makes the goal hold: the variables of the root
/// are the values of the goal's outermost existential quantifiers.
pub proof fn lemma_open_root_sound(
    env: Seq<ClauseView>,
    goal: GoalView,
    table: TableView,
    answer: TableView,
    depth: nat,
)
    requires
        table.well_formed(),
    ensures
        open_root(goal, table).1.well_formed(),
        holds(env, open_root(goal, table).0, answer, depth) ==> holds(env, goal, answer, depth),
    decreases goal.height(),
{
    match goal {
        GoalView::Exists(n, b) => {
            let values = fresh_variables(table.slots.len(), n);
            b.lemma_instantiate_height(0, values);
            lemma_extended(table, n, 0);
            lemma_open_root_sound(
                env,
                b.instantiate(0, values),
                table.with_variables(n, 0),
                answer,
                depth,
            );
            assert(chosen(0, values));
        },
        _ => {},
    }
}

/// The solver is sound: where the search for a goal ends with answers,
/// each solution that is reported is the text of the root goal under one
/// of them, and under each of them the goal holds by a derivation from the
/// clauses, no deeper than the depth limit.
pub proof fn law_solutions_hold(env: Seq<ClauseView>, goal: GoalView)
    ensures
        root_outcome(env, goal) matches Outcome::Answers(answers) ==> solutions(
            env,
            goal,
            Strategy::DepthFirstSearch,
        ) == rendered(open_root(goal, TableView::empty()).0, answers) && forall|i: int|
            0 <= i < answers.len() ==> (#[trigger] answers[i]).well_formed() && holds(
                env,
                goal,
                answers[i],
                DEPTH_LIMIT as nat,
            ),
{
    let start = TableView::empty();
    let (root, table) = open_root(goal, start);
    assert(start.well_formed());
    match root_outcome(env, goal) {
        Outcome::Overflow => {},
        Outcome::Answers(answers) => {
            assert forall|i: int| 0 <= i < answers.len() implies (
            #[trigger] answers[i]).well_formed() && holds(
                env,
                goal,
                answers[i],
                DEPTH_LIMIT as nat,
            ) by {
                lemma_open_root_sound(env, goal, start, answers[i], DEPTH_LIMIT as nat);
                lemma_search_sound(env, root, table, 0, DEPTH_LIMIT as nat);
            }
        },
    }
}

/// The order of a conjunction does not decide what holds: every answer to
/// `l` and `r` is a table under which `r` and `l` holds as well.
pub proof fn law_conjunction_commutes(
    env: Seq<ClauseView>,
    l: GoalView,
    r: GoalView,
    table: TableView,
    universe: nat,
    fuel: nat,
)
    requires
        table.well_formed(),
    ensures
        search(env, GoalView::And(Box::new(l), Box::new(r)), table, universe, fuel)
            matches Outcome::Answers(answers) ==> forall|i: int|
            0 <= i < answers.len() ==> holds(
                env,
                GoalView::And(Box::new(r), Box::new(l)),
                #[trigger] answers[i],
                fuel,
            ),
{
    lemma_search_sound(env, GoalView::And(Box::new(l), Box::new(r)), table, universe, fuel);
}

} // verus!
