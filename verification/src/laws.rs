//! What holds of every search: laws of the engine, each proved from the
//! definitions that the contracts of the solver use.
use vstd::prelude::*;
use crate::formula::{
    instantiate_all, lemma_instantiate_apply, ApplicationView, ClauseView, GoalView, TermView,
};
use crate::infer::{
    count_unbound, lemma_resolve_apply, resolve_all, SlotView, TableView, Unified,
};
use crate::render::{applied, bound_names, render_all};
use crate::solve::{
    attempt, fresh_placeholders, fresh_variables, open_root, rendered, resolve_with, search,
    search_each, solutions, Outcome, Strategy,
};

verus! {

/// Whether the goal assumes nothing: no implication stands in it.
pub open spec fn premise_free(goal: GoalView) -> bool
    decreases goal,
{
    match goal {
        GoalView::Apply(_) => true,
        GoalView::And(l, r) => premise_free(*l) && premise_free(*r),
        GoalView::Implies(_, _) => false,
        GoalView::ForAll(_, b) => premise_free(*b),
        GoalView::Exists(_, b) => premise_free(*b),
    }
}

/// Instantiation adds no implication and removes none.
pub proof fn lemma_instantiate_premise_free(goal: GoalView, depth: nat, values: Seq<TermView>)
    ensures
        premise_free(goal.instantiate(depth, values)) == premise_free(goal),
    decreases goal,
{
    match goal {
        GoalView::Apply(_) => {},
        GoalView::And(l, r) => {
            lemma_instantiate_premise_free(*l, depth, values);
            lemma_instantiate_premise_free(*r, depth, values);
        },
        GoalView::Implies(_, _) => {},
        GoalView::ForAll(n, b) => {
            lemma_instantiate_premise_free(*b, crate::formula::enter(depth, n), values);
        },
        GoalView::Exists(n, b) => {
            lemma_instantiate_premise_free(*b, crate::formula::enter(depth, n), values);
        },
    }
}

/// Without clauses, a goal that assumes nothing has no proof, from whatever
/// table the search starts.
pub proof fn lemma_no_clauses(goal: GoalView, table: TableView, universe: nat, fuel: nat)
    requires
        premise_free(goal),
        table.universes + goal.height() <= usize::MAX,
    ensures
        search(Seq::empty(), goal, table, universe, fuel) == Outcome::Answers(Seq::empty()),
    decreases goal.height(),
{
    let none = Seq::<ClauseView>::empty();
    match goal {
        GoalView::Apply(app) => {
            assert(resolve_with(none, none, app, table, universe, fuel) == Outcome::Answers(
                Seq::empty(),
            ));
        },
        GoalView::And(l, r) => {
            lemma_no_clauses(*l, table, universe, fuel);
            assert(search_each(none, *r, Seq::empty(), universe, fuel) == Outcome::Answers(
                Seq::empty(),
            ));
        },
        GoalView::Implies(_, _) => {},
        GoalView::ForAll(n, b) => {
            let inner = table.universes + 1;
            let values = fresh_placeholders(inner, n);
            b.lemma_instantiate_height(0, values);
            lemma_instantiate_premise_free(*b, 0, values);
            lemma_no_clauses(b.instantiate(0, values), table.with_universe(), inner, fuel);
        },
        GoalView::Exists(n, b) => {
            let values = fresh_variables(table.slots.len(), n);
            b.lemma_instantiate_height(0, values);
            lemma_instantiate_premise_free(*b, 0, values);
            lemma_no_clauses(
                b.instantiate(0, values),
                table.with_variables(n, universe),
                universe,
                fuel,
            );
        },
    }
}

/// The root of a goal that assumes nothing assumes nothing, is no higher,
/// and opens no universe.
pub proof fn lemma_open_root_premise_free(goal: GoalView, table: TableView)
    requires
        premise_free(goal),
    ensures
        premise_free(open_root(goal, table).0),
        open_root(goal, table).0.height() <= goal.height(),
        open_root(goal, table).1.universes == table.universes,
    decreases goal.height(),
{
    match goal {
        GoalView::Exists(n, b) => {
            let values = fresh_variables(table.slots.len(), n);
            b.lemma_instantiate_height(0, values);
            lemma_instantiate_premise_free(*b, 0, values);
            lemma_open_root_premise_free(b.instantiate(0, values), table.with_variables(n, 0));
        },
        _ => {},
    }
}

/// Against an empty set of clauses, a goal in which nothing is assumed has
/// no solution, under either strategy. (The goal must not nest more
/// quantifiers than a machine word counts.)
pub proof fn law_no_clauses_no_solutions(goal: GoalView, strategy: Strategy)
    requires
        premise_free(goal),
        goal.height() <= usize::MAX,
    ensures
        solutions(Seq::empty(), goal, strategy) == Seq::<Seq<char>>::empty(),
{
    let (root, table) = open_root(goal, TableView::empty());
    lemma_open_root_premise_free(goal, TableView::empty());
    lemma_no_clauses(root, table, 0, crate::solve::DEPTH_LIMIT as nat);
    assert(rendered(root, Seq::empty()) =~= Seq::<Seq<char>>::empty());
}

/// Whether the term is made of constructors alone: it holds no variable
/// and no placeholder.
pub open spec fn ground(t: TermView) -> bool
    decreases t,
{
    match t {
        TermView::Apply(_, args) => forall|k: int| 0 <= k < args.len() ==> ground(#[trigger] args[k]),
        _ => false,
    }
}

/// A term made of constructors alone mentions no variable, is visible from
/// every universe, and stays as it is under every table and instantiation.
pub proof fn lemma_ground(
    t: TermView,
    table: TableView,
    depth: nat,
    values: Seq<TermView>,
    v: nat,
    universe: nat,
)
    requires
        ground(t),
    ensures
        t.resolve(table) == t,
        t.instantiate(depth, values) == t,
        !t.mentions(v),
        t.visible_from(universe),
    decreases t,
{
    match t {
        TermView::Apply(name, args) => {
            assert forall|k: int| 0 <= k < args.len() implies (#[trigger] args[k]).resolve(table)
                == args[k] && args[k].instantiate(depth, values) == args[k] && !args[k].mentions(
                v,
            ) && args[k].visible_from(universe) by {
                lemma_ground(args[k], table, depth, values, v, universe);
            }
            lemma_resolve_apply(name, args, table);
            assert(resolve_all(args, table) =~= args);
            lemma_instantiate_apply(name, args, depth, values);
            assert(instantiate_all(args, depth, values) =~= args);
        },
        _ => {},
    }
}

/// The fact that `name` holds of `c`.
pub open spec fn unit_fact(name: Seq<char>, c: TermView) -> ClauseView {
    ClauseView {
        binders: 0,
        condition: None,
        conclusion: ApplicationView { name, args: seq![c] },
    }
}

/// One fact for each of `cs`, in their order.
pub open spec fn unit_facts(name: Seq<char>, cs: Seq<TermView>) -> Seq<ClauseView> {
    Seq::new(cs.len(), |i: int| unit_fact(name, cs[i]))
}

/// The question of what `name` holds of.
pub open spec fn unit_query(name: Seq<char>) -> GoalView {
    GoalView::Exists(
        1,
        Box::new(GoalView::Apply(ApplicationView { name, args: seq![TermView::Bound(0)] })),
    )
}

/// The table of one variable, of universe 0, with the binding `binding`.
pub open spec fn single(binding: Option<TermView>) -> TableView {
    TableView { slots: seq![SlotView { binding, universe: 0 }], universes: 0 }
}

/// The atom that `name` holds of the one variable.
pub open spec fn unit_atom(name: Seq<char>) -> ApplicationView {
    ApplicationView { name, args: seq![TermView::Var(0)] }
}

/// The root of a unit query is its atom, over one unbound variable.
pub proof fn lemma_unit_root(name: Seq<char>)
    ensures
        open_root(unit_query(name), TableView::empty()) == (
            GoalView::Apply(unit_atom(name)),
            single(None),
        ),
{
    let values = fresh_variables(0, 1);
    let body = GoalView::Apply(ApplicationView { name, args: seq![TermView::Bound(0)] });
    assert(instantiate_all(seq![TermView::Bound(0)], 0, values) =~= seq![TermView::Var(0)]);
    assert(TableView::empty().with_variables(1, 0).slots =~= single(None).slots);
    assert(body.instantiate(0, values) == GoalView::Apply(unit_atom(name)));
    reveal_with_fuel(open_root, 2);
}

/// A fact about a term made of constructors binds the variable of the
/// query to that term.
pub proof fn lemma_unify_fact(name: Seq<char>, c: TermView)
    requires
        ground(c),
    ensures
        single(None).unify_applications(ApplicationView { name, args: seq![c] }, unit_atom(name))
            == Some(single(Some(c))),
{
    let table = single(None);
    let a = TermView::Apply(name, seq![c]);
    let b = TermView::Apply(name, seq![TermView::Var(0)]);
    lemma_ground(c, table, 0, Seq::empty(), 0, 0);
    lemma_resolve_apply(name, seq![c], table);
    lemma_resolve_apply(name, seq![TermView::Var(0)], table);
    assert(resolve_all(seq![c], table) =~= seq![c]);
    assert(resolve_all(seq![TermView::Var(0)], table) =~= seq![TermView::Var(0)]);
    assert(a.resolve(table) == a);
    assert(b.resolve(table) == b);
    let bound = table.bind(0, c);
    assert(bound is Some);
    assert(bound->0.slots =~= single(Some(c)).slots);
    assert(bound == Some(single(Some(c))));
    assert(table.unify_resolved(c, TermView::Var(0)) == Some(
        Unified { table: single(Some(c)), changed: true },
    ));
    assert(count_unbound(table.slots) == 1) by {
        reveal_with_fuel(count_unbound, 2);
        assert(table.slots.drop_last() =~= Seq::<SlotView>::empty());
    }
    assert(count_unbound(single(Some(c)).slots) == 0) by {
        reveal_with_fuel(count_unbound, 2);
        assert(single(Some(c)).slots.drop_last() =~= Seq::<SlotView>::empty());
    }
    let after = single(Some(c));
    assert(after.unify_args(a.resolve(after), b.resolve(after), 1) == Some(
        Unified { table: after, changed: false },
    )) by {
        lemma_resolve_apply(name, seq![c], after);
        lemma_resolve_apply(name, seq![TermView::Var(0)], after);
    }
    assert(table.unify_args(a, b, 0) == Some(Unified { table: after, changed: true }));
    assert(table.unify_resolved(a, b) == Some(Unified { table: after, changed: true }));
}

/// Against one fact about a term made of constructors, the unit query
/// succeeds on one branch.
pub proof fn lemma_attempt_fact(env: Seq<ClauseView>, name: Seq<char>, c: TermView, fuel: nat)
    requires
        ground(c),
    ensures
        attempt(env, unit_fact(name, c), unit_atom(name), single(None), 0, fuel)
            == Outcome::Answers(seq![single(Some(c))]),
{
    let table = single(None);
    let values = fresh_variables(1, 0);
    lemma_ground(c, table, 0, values, 0, 0);
    assert(instantiate_all(seq![c], 0, values) =~= seq![c]);
    assert(table.with_variables(0, 0).slots =~= table.slots);
    lemma_unify_fact(name, c);
}

/// The tables that bind the one variable to each of `cs` in turn.
pub open spec fn singles(cs: Seq<TermView>) -> Seq<TableView> {
    Seq::new(cs.len(), |i: int| single(Some(cs[i])))
}

/// Against facts about terms made of constructors, the unit query succeeds
/// once for each fact, in their order.
pub proof fn lemma_resolve_facts(env: Seq<ClauseView>, name: Seq<char>, cs: Seq<TermView>, fuel: nat)
    requires
        forall|i: int| 0 <= i < cs.len() ==> ground(#[trigger] cs[i]),
    ensures
        resolve_with(env, unit_facts(name, cs), unit_atom(name), single(None), 0, fuel)
            == Outcome::Answers(singles(cs)),
    decreases cs.len(),
{
    let facts = unit_facts(name, cs);
    if cs.len() == 0 {
        assert(singles(cs) =~= Seq::<TableView>::empty());
    } else {
        let rest = cs.drop_first();
        assert(facts.drop_first() =~= unit_facts(name, rest));
        assert forall|i: int| 0 <= i < rest.len() implies ground(#[trigger] rest[i]) by {
            assert(rest[i] == cs[i + 1]);
        }
        lemma_resolve_facts(env, name, rest, fuel);
        assert(ground(cs[0]));
        lemma_attempt_fact(env, name, cs[0], fuel);
        assert(facts[0] == unit_fact(name, cs[0]));
        assert(seq![single(Some(cs[0]))] + singles(rest) =~= singles(cs));
    }
}

/// The text of the fact that `name` holds of `c`.
pub open spec fn unit_text(name: Seq<char>, c: TermView) -> Seq<char> {
    applied(name, seq![c.render(Seq::empty())])
}

/// Solving for what a predicate holds of, against facts about terms made
/// of constructors, yields one solution for each fact, in the order of the
/// facts: the text of that fact.
pub proof fn law_facts_enumerated(name: Seq<char>, cs: Seq<TermView>)
    requires
        forall|i: int| 0 <= i < cs.len() ==> ground(#[trigger] cs[i]),
    ensures
        solutions(unit_facts(name, cs), unit_query(name), Strategy::DepthFirstSearch) == Seq::new(
            cs.len(),
            |i: int| unit_text(name, cs[i]),
        ),
        forall|i: int|
            0 <= i < cs.len() ==> unit_text(name, cs[i]) == (#[trigger] unit_facts(
                name,
                cs,
            )[i]).render(TableView::empty(), Seq::empty()),
{
    let env = unit_facts(name, cs);
    let root = GoalView::Apply(unit_atom(name));
    lemma_unit_root(name);
    lemma_resolve_facts(env, name, cs, crate::solve::DEPTH_LIMIT as nat);
    assert forall|i: int| 0 <= i < cs.len() implies root.render(singles(cs)[i], Seq::empty())
        == unit_text(name, cs[i]) by {
        let table = single(Some(cs[i]));
        assert(resolve_all(seq![TermView::Var(0)], table) =~= seq![cs[i]]);
        assert(render_all(seq![cs[i]], Seq::empty()) =~= seq![cs[i].render(Seq::empty())]);
    }
    assert(rendered(root, singles(cs)) =~= Seq::new(cs.len(), |i: int| unit_text(name, cs[i])));
    assert forall|i: int| 0 <= i < cs.len() implies unit_text(name, cs[i]) == (
    #[trigger] unit_facts(name, cs)[i]).render(TableView::empty(), Seq::empty()) by {
        lemma_ground(cs[i], TableView::empty(), 0, Seq::empty(), 0, 0);
        assert(resolve_all(seq![cs[i]], TableView::empty()) =~= seq![cs[i]]);
        assert(bound_names(Seq::empty(), 0) =~= Seq::<nat>::empty());
        assert(render_all(seq![cs[i]], Seq::empty()) =~= seq![cs[i].render(Seq::empty())]);
    }
}

/// Under `Rust`, the same question against two facts or more is reported
/// as ambiguous; against a single fact it has that fact as its solution.
pub proof fn law_facts_ambiguous(name: Seq<char>, cs: Seq<TermView>)
    requires
        forall|i: int| 0 <= i < cs.len() ==> ground(#[trigger] cs[i]),
    ensures
        cs.len() >= 2 ==> solutions(unit_facts(name, cs), unit_query(name), Strategy::Rust)
            == seq!["<<ambiguous>>"@],
        cs.len() < 2 ==> solutions(unit_facts(name, cs), unit_query(name), Strategy::Rust)
            == solutions(unit_facts(name, cs), unit_query(name), Strategy::DepthFirstSearch),
{
    lemma_unit_root(name);
    lemma_resolve_facts(unit_facts(name, cs), name, cs, crate::solve::DEPTH_LIMIT as nat);
}

/// The goal that `name` holds of everything.
pub open spec fn universal_query(name: Seq<char>) -> GoalView {
    GoalView::ForAll(
        1,
        Box::new(GoalView::Apply(ApplicationView { name, args: seq![TermView::Bound(0)] })),
    )
}

/// The atom that `name` holds of the first placeholder of the first
/// universe.
pub open spec fn rigid_atom(name: Seq<char>) -> ApplicationView {
    ApplicationView { name, args: seq![TermView::Rigid(1, 0)] }
}

/// The body of the universal query, instantiated, is its atom about a
/// placeholder.
pub proof fn lemma_universal_body(name: Seq<char>)
    ensures
        GoalView::Apply(ApplicationView { name, args: seq![TermView::Bound(0)] }).instantiate(
            0,
            fresh_placeholders(1, 1),
        ) == GoalView::Apply(rigid_atom(name)),
{
    assert(instantiate_all(seq![TermView::Bound(0)], 0, fresh_placeholders(1, 1)) =~= seq![
        TermView::Rigid(1, 0),
    ]);
}

/// A fact about a term made of constructors says nothing of a placeholder.
pub proof fn lemma_facts_miss_placeholder(
    env: Seq<ClauseView>,
    name: Seq<char>,
    cs: Seq<TermView>,
    table: TableView,
    fuel: nat,
)
    requires
        forall|i: int| 0 <= i < cs.len() ==> ground(#[trigger] cs[i]),
    ensures
        resolve_with(env, unit_facts(name, cs), rigid_atom(name), table, 1, fuel)
            == Outcome::Answers(Seq::empty()),
    decreases cs.len(),
{
    let facts = unit_facts(name, cs);
    if cs.len() > 0 {
        let rest = cs.drop_first();
        assert(facts.drop_first() =~= unit_facts(name, rest));
        assert forall|i: int| 0 <= i < rest.len() implies ground(#[trigger] rest[i]) by {
            assert(rest[i] == cs[i + 1]);
        }
        lemma_facts_miss_placeholder(env, name, rest, table, fuel);
        let c = cs[0];
        assert(ground(c));
        let values = fresh_variables(table.slots.len(), 0);
        let extended = table.with_variables(0, 1);
        lemma_ground(c, extended, 0, values, 0, 0);
        assert(instantiate_all(seq![c], 0, values) =~= seq![c]);
        lemma_resolve_apply(name, seq![c], extended);
        lemma_resolve_apply(name, seq![TermView::Rigid(1, 0)], extended);
        assert(resolve_all(seq![c], extended) =~= seq![c]);
        assert(resolve_all(seq![TermView::Rigid(1, 0)], extended) =~= seq![TermView::Rigid(1, 0)]);
        let a = TermView::Apply(name, seq![c]);
        let b = TermView::Apply(name, seq![TermView::Rigid(1, 0)]);
        assert(extended.unify_resolved(c, TermView::Rigid(1, 0)) is None);
        assert(extended.unify_args(a, b, 0) is None);
        assert(extended.unify_resolved(a, b) is None);
        assert(attempt(env, facts[0], rigid_atom(name), table, 1, fuel) == Outcome::Answers(
            Seq::empty(),
        ));
        assert(Seq::<TableView>::empty() + Seq::<TableView>::empty() =~= Seq::<TableView>::empty());
    }
}

/// Facts about particular terms do not prove a universal goal: against
/// facts about terms made of constructors, the goal that the predicate
/// holds of everything has no solution, under either strategy.
pub proof fn law_universal_goal_ignores_facts(name: Seq<char>, cs: Seq<TermView>, strategy: Strategy)
    requires
        forall|i: int| 0 <= i < cs.len() ==> ground(#[trigger] cs[i]),
    ensures
        solutions(unit_facts(name, cs), universal_query(name), strategy) == Seq::<
            Seq<char>,
        >::empty(),
{
    let env = unit_facts(name, cs);
    let goal = universal_query(name);
    lemma_universal_body(name);
    lemma_facts_miss_placeholder(
        env,
        name,
        cs,
        TableView::empty().with_universe(),
        crate::solve::DEPTH_LIMIT as nat,
    );
    let fuel = crate::solve::DEPTH_LIMIT as nat;
    let opened = TableView::empty().with_universe();
    assert(search(env, GoalView::Apply(rigid_atom(name)), opened, 1, fuel) == Outcome::Answers(
        Seq::empty(),
    ));
    assert(search(env, goal, TableView::empty(), 0, fuel) == Outcome::Answers(Seq::empty()));
    assert(rendered(goal, Seq::empty()) =~= Seq::<Seq<char>>::empty());
}

/// The fact that `name` holds of everything.
pub open spec fn universal_fact(name: Seq<char>) -> ClauseView {
    ClauseView {
        binders: 1,
        condition: None,
        conclusion: ApplicationView { name, args: seq![TermView::Bound(0)] },
    }
}

/// A fact that holds of everything proves the universal goal once: the one
/// solution is the text of the goal, under either strategy.
pub proof fn law_universal_goal_met_by_universal_fact(name: Seq<char>, strategy: Strategy)
    ensures
        solutions(seq![universal_fact(name)], universal_query(name), strategy) == seq![
            universal_query(name).render(TableView::empty(), Seq::empty()),
        ],
{
    let env = seq![universal_fact(name)];
    let goal = universal_query(name);
    let fuel = crate::solve::DEPTH_LIMIT as nat;
    let opened = TableView::empty().with_universe();
    lemma_universal_body(name);
    let values = fresh_variables(0, 1);
    let extended = opened.with_variables(1, 1);
    let slot = SlotView { binding: None, universe: 1 };
    assert(extended.slots =~= seq![slot]);
    assert(instantiate_all(seq![TermView::Bound(0)], 0, values) =~= seq![TermView::Var(0)]);
    let a = TermView::Apply(name, seq![TermView::Var(0)]);
    let b = TermView::Apply(name, seq![TermView::Rigid(1, 0)]);
    lemma_resolve_apply(name, seq![TermView::Var(0)], extended);
    lemma_resolve_apply(name, seq![TermView::Rigid(1, 0)], extended);
    assert(resolve_all(seq![TermView::Var(0)], extended) =~= seq![TermView::Var(0)]);
    assert(resolve_all(seq![TermView::Rigid(1, 0)], extended) =~= seq![TermView::Rigid(1, 0)]);
    let bound = extended.bind(0, TermView::Rigid(1, 0));
    assert(bound is Some);
    let after = bound->0;
    extended.lemma_bind_unbound(0, TermView::Rigid(1, 0));
    assert(extended.unify_resolved(TermView::Var(0), TermView::Rigid(1, 0)) == Some(
        Unified { table: after, changed: true },
    ));
    assert(after.unify_args(a.resolve(after), b.resolve(after), 1) == Some(
        Unified { table: after, changed: false },
    )) by {
        lemma_resolve_apply(name, seq![TermView::Var(0)], after);
        lemma_resolve_apply(name, seq![TermView::Rigid(1, 0)], after);
    }
    assert(extended.unify_args(a, b, 0) == Some(Unified { table: after, changed: true }));
    assert(extended.unify_resolved(a, b) == Some(Unified { table: after, changed: true }));
    assert(attempt(env, universal_fact(name), rigid_atom(name), opened, 1, fuel)
        == Outcome::Answers(seq![after]));
    assert(env.drop_first() =~= Seq::<ClauseView>::empty());
    assert(seq![after] + Seq::<TableView>::empty() =~= seq![after]);
    assert(resolve_with(env, env, rigid_atom(name), opened, 1, fuel) == Outcome::Answers(
        seq![after],
    )) by {
        reveal_with_fuel(resolve_with, 2);
    }
    assert(search(env, GoalView::Apply(rigid_atom(name)), opened, 1, fuel) == Outcome::Answers(
        seq![after],
    ));
    assert(search(env, goal, TableView::empty(), 0, fuel) == Outcome::Answers(seq![after]));
    assert(resolve_all(seq![TermView::Bound(0)], after) =~= resolve_all(
        seq![TermView::Bound(0)],
        TableView::empty(),
    ));
    assert(goal.render(after, Seq::empty()) == goal.render(TableView::empty(), Seq::empty())) by {
        reveal_with_fuel(GoalView::render, 2);
    }
    assert(rendered(goal, seq![after]) =~= seq![goal.render(TableView::empty(), Seq::empty())]);
}

/// The rule that `name` holds of what it holds of.
pub open spec fn circular_rule(name: Seq<char>) -> ClauseView {
    ClauseView {
        binders: 1,
        condition: Some(GoalView::Apply(ApplicationView { name, args: seq![TermView::Bound(0)] })),
        conclusion: ApplicationView { name, args: seq![TermView::Bound(0)] },
    }
}

/// Whether the term is made of constructors and of placeholders that
/// `universe` can see: it holds no variable.
pub open spec fn firm(t: TermView, universe: nat) -> bool
    decreases t,
{
    match t {
        TermView::Apply(_, args) => forall|k: int|
            0 <= k < args.len() ==> firm(#[trigger] args[k], universe),
        TermView::Rigid(u, _) => u <= universe,
        _ => false,
    }
}

/// The arguments of a firm application are firm.
pub proof fn lemma_firm_args(name: Seq<char>, args: Seq<TermView>, universe: nat)
    requires
        firm(TermView::Apply(name, args), universe),
    ensures
        forall|k: int| 0 <= k < args.len() ==> firm(#[trigger] args[k], universe),
{
    let t = TermView::Apply(name, args);
    assert(t->Apply_1 == args);
    assert forall|k: int| 0 <= k < args.len() implies firm(#[trigger] args[k], universe) by {
        assert(firm(t, universe));
        assert(firm(t->Apply_1[k], universe));
    }
}

/// A term made of constructors is firm in every universe.
pub proof fn lemma_ground_firm(t: TermView, universe: nat)
    requires
        ground(t),
    ensures
        firm(t, universe),
    decreases t,
{
    match t {
        TermView::Apply(_, args) => {
            assert forall|k: int| 0 <= k < args.len() implies firm(#[trigger] args[k], universe) by {
                assert(ground(t->Apply_1[k]));
                lemma_ground_firm(args[k], universe);
            }
        },
        _ => {},
    }
}

/// A firm term mentions no variable, is visible from its universe, and
/// stays as it is under every table.
pub proof fn lemma_firm(t: TermView, universe: nat, table: TableView, v: nat)
    requires
        firm(t, universe),
    ensures
        t.resolve(table) == t,
        !t.mentions(v),
        t.visible_from(universe),
    decreases t,
{
    match t {
        TermView::Apply(name, args) => {
            assert forall|k: int| 0 <= k < args.len() implies (#[trigger] args[k]).resolve(table)
                == args[k] && !args[k].mentions(v) && args[k].visible_from(universe) by {
                assert(firm(t->Apply_1[k], universe));
                lemma_firm(args[k], universe, table, v);
            }
            lemma_resolve_apply(name, args, table);
            assert(resolve_all(args, table) =~= args);
        },
        _ => {},
    }
}

/// More variables leave a term as it resolves, where it resolves to a firm
/// term.
pub proof fn lemma_resolve_extended(
    s: TermView,
    table: TableView,
    n: nat,
    universe: nat,
    seen: nat,
)
    requires
        firm(s.resolve(table), seen),
    ensures
        s.resolve(table.with_variables(n, universe)) == s.resolve(table),
    decreases s,
{
    let extended = table.with_variables(n, universe);
    match s {
        TermView::Apply(name, args) => {
            lemma_resolve_apply(name, args, table);
            lemma_resolve_apply(name, args, extended);
            let resolved = resolve_all(args, table);
            assert(s.resolve(table) == TermView::Apply(name, resolved));
            lemma_firm_args(name, resolved, seen);
            assert forall|k: int| 0 <= k < args.len() implies (#[trigger] args[k]).resolve(extended)
                == args[k].resolve(table) by {
                assert(firm(resolved[k], seen));
                lemma_resolve_extended(args[k], table, n, universe, seen);
            }
            assert(resolve_all(args, extended) =~= resolve_all(args, table));
        },
        _ => {},
    }
}

/// Against the circular rule alone, the search for an atom about a term
/// that resolves to a firm term runs into the depth bound, whatever the
/// bound is.
pub proof fn lemma_circular_overflows(
    name: Seq<char>,
    s: TermView,
    table: TableView,
    universe: nat,
    fuel: nat,
)
    requires
        firm(s.resolve(table), universe),
    ensures
        search(
            seq![circular_rule(name)],
            GoalView::Apply(ApplicationView { name, args: seq![s] }),
            table,
            universe,
            fuel,
        ) == Outcome::Overflow,
    decreases fuel,
{
    let env = seq![circular_rule(name)];
    let app = ApplicationView { name, args: seq![s] };
    let c = s.resolve(table);
    let base = table.slots.len();
    let values = fresh_variables(base, 1);
    let extended = table.with_variables(1, universe);
    let fresh = TermView::Var(base);
    assert(instantiate_all(seq![TermView::Bound(0)], 0, values) =~= seq![fresh]);
    lemma_resolve_extended(s, table, 1, universe, universe);
    let a = TermView::Apply(name, seq![fresh]);
    let b = TermView::Apply(name, seq![s]);
    lemma_resolve_apply(name, seq![fresh], extended);
    lemma_resolve_apply(name, seq![s], extended);
    assert(resolve_all(seq![fresh], extended) =~= seq![fresh]);
    assert(resolve_all(seq![s], extended) =~= seq![c]);
    lemma_firm(c, universe, extended, base);
    let bound = extended.bind(base, c);
    assert(bound is Some);
    let after = bound->0;
    lemma_firm(c, universe, after, base);
    extended.lemma_bind_unbound(base, c);
    let ra = TermView::Apply(name, seq![fresh]);
    let rb = TermView::Apply(name, seq![c]);
    assert(extended.unify_resolved(fresh, c) == Some(Unified { table: after, changed: true }));
    assert(after.unify_args(ra.resolve(after), rb.resolve(after), 1) == Some(
        Unified { table: after, changed: false },
    )) by {
        lemma_resolve_apply(name, seq![fresh], after);
        lemma_resolve_apply(name, seq![c], after);
    }
    assert(extended.unify_args(ra, rb, 0) == Some(Unified { table: after, changed: true }));
    assert(extended.unify_resolved(ra, rb) == Some(Unified { table: after, changed: true }));
    assert(extended.unify_applications(
        ApplicationView { name, args: seq![fresh] },
        app,
    ) == Some(after));
    assert(fresh.resolve(after) == c);
    if fuel > 0 {
        lemma_circular_overflows(name, fresh, after, universe, (fuel - 1) as nat);
    }
    assert(attempt(env, circular_rule(name), app, table, universe, fuel) == Outcome::Overflow);
    assert(env[0] == circular_rule(name));
    assert(resolve_with(env, env, app, table, universe, fuel) == Outcome::Overflow);
}

/// A rule that refers to itself is no trap: against `p(X) :- p(X)` alone,
/// the goal that `p` holds of a term made of constructors is reported as an
/// overflow, under either strategy.
pub proof fn law_circular_rule_overflows(name: Seq<char>, c: TermView, strategy: Strategy)
    requires
        ground(c),
    ensures
        solutions(
            seq![circular_rule(name)],
            GoalView::Apply(ApplicationView { name, args: seq![c] }),
            strategy,
        ) == seq!["<<overflow>>"@],
{
    lemma_ground_firm(c, 0);
    lemma_firm(c, 0, TableView::empty(), 0);
    lemma_circular_overflows(name, c, TableView::empty(), 0, crate::solve::DEPTH_LIMIT as nat);
}

/// The same of the universal goal: against `p(X) :- p(X)` alone, the goal
/// that `p` holds of everything is reported as an overflow, under either
/// strategy. Its body is about a placeholder, which the rule passes on to
/// itself at every depth.
pub proof fn law_circular_rule_overflows_universal_goal(name: Seq<char>, strategy: Strategy)
    ensures
        solutions(seq![circular_rule(name)], universal_query(name), strategy) == seq![
            "<<overflow>>"@,
        ],
{
    let env = seq![circular_rule(name)];
    let fuel = crate::solve::DEPTH_LIMIT as nat;
    let opened = TableView::empty().with_universe();
    let placeholder = TermView::Rigid(1, 0);
    lemma_universal_body(name);
    assert(placeholder.resolve(opened) == placeholder);
    lemma_circular_overflows(name, placeholder, opened, 1, fuel);
    assert(search(env, GoalView::Apply(rigid_atom(name)), opened, 1, fuel) == Outcome::Overflow);
    assert(search(env, universal_query(name), TableView::empty(), 0, fuel) == Outcome::Overflow);
}

/// A search that ended with answers ends with the same answers at every
/// greater depth bound: the bound decides between an overflow and the
/// answers, never between answers.
pub proof fn law_deeper_search_agrees(
    env: Seq<ClauseView>,
    goal: GoalView,
    table: TableView,
    universe: nat,
    fuel: nat,
)
    ensures
        search(env, goal, table, universe, fuel) is Answers ==> search(
            env,
            goal,
            table,
            universe,
            fuel + 1,
        ) == search(env, goal, table, universe, fuel),
    decreases fuel, goal.height(), 0nat,
{
    match goal {
        GoalView::Apply(app) => {
            lemma_deeper_resolve_agrees(env, env, app, table, universe, fuel);
        },
        GoalView::And(l, r) => {
            law_deeper_search_agrees(env, *l, table, universe, fuel);
            match search(env, *l, table, universe, fuel) {
                Outcome::Overflow => {},
                Outcome::Answers(tables) => {
                    lemma_deeper_each_agrees(env, *r, tables, universe, fuel);
                },
            }
        },
        GoalView::Implies(c, g) => {
            law_deeper_search_agrees(seq![*c] + env, *g, table, universe, fuel);
        },
        GoalView::ForAll(n, b) => {
            if table.universes < usize::MAX {
                let inner = table.universes + 1;
                b.lemma_instantiate_height(0, fresh_placeholders(inner, n));
                law_deeper_search_agrees(
                    env,
                    b.instantiate(0, fresh_placeholders(inner, n)),
                    table.with_universe(),
                    inner,
                    fuel,
                );
            }
        },
        GoalView::Exists(n, b) => {
            let values = fresh_variables(table.slots.len(), n);
            b.lemma_instantiate_height(0, values);
            law_deeper_search_agrees(
                env,
                b.instantiate(0, values),
                table.with_variables(n, universe),
                universe,
                fuel,
            );
        },
    }
}

/// The same, of the search from each of several tables.
pub proof fn lemma_deeper_each_agrees(
    env: Seq<ClauseView>,
    goal: GoalView,
    tables: Seq<TableView>,
    universe: nat,
    fuel: nat,
)
    ensures
        search_each(env, goal, tables, universe, fuel) is Answers ==> search_each(
            env,
            goal,
            tables,
            universe,
            fuel + 1,
        ) == search_each(env, goal, tables, universe, fuel),
    decreases fuel, goal.height(), tables.len() + 1,
{
    if tables.len() > 0 {
        law_deeper_search_agrees(env, goal, tables[0], universe, fuel);
        lemma_deeper_each_agrees(env, goal, tables.drop_first(), universe, fuel);
    }
}

/// The same, of the resolution against several clauses.
pub proof fn lemma_deeper_resolve_agrees(
    env: Seq<ClauseView>,
    candidates: Seq<ClauseView>,
    app: ApplicationView,
    table: TableView,
    universe: nat,
    fuel: nat,
)
    ensures
        resolve_with(env, candidates, app, table, universe, fuel) is Answers ==> resolve_with(
            env,
            candidates,
            app,
            table,
            universe,
            fuel + 1,
        ) == resolve_with(env, candidates, app, table, universe, fuel),
    decreases fuel, 0nat, candidates.len() + 1,
{
    if candidates.len() > 0 {
        let clause = candidates[0];
        lemma_deeper_resolve_agrees(env, candidates.drop_first(), app, table, universe, fuel);
        match clause.condition {
            Some(g) => {
                if fuel > 0 {
                    let values = fresh_variables(table.slots.len(), clause.binders);
                    let head = clause.conclusion.instantiate(0, values);
                    match table.with_variables(clause.binders, universe).unify_applications(
                        head,
                        app,
                    ) {
                        Some(unified) => {
                            law_deeper_search_agrees(
                                env,
                                g.instantiate(0, values),
                                unified,
                                universe,
                                (fuel - 1) as nat,
                            );
                        },
                        None => {},
                    }
                }
            },
            None => {},
        }
        assert(attempt(env, clause, app, table, universe, fuel) is Answers ==> attempt(
            env,
            clause,
            app,
            table,
            universe,
            fuel + 1,
        ) == attempt(env, clause, app, table, universe, fuel));
    }
}

} // verus!
